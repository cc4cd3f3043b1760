//! Message codec: requests and responses travel as a compact,
//! self-describing, field-tagged binary value (the MessagePack format).
//!
//! A record is one array holding its fields in declaration order.  Strings
//! carry their UTF-8 bytes behind a length-tagged header, unsigned integers
//! use the shortest of the fixed/8/16/32/64-bit forms, optional fields are
//! nil when absent, and the context mapping is a map of string pairs.  The
//! spec functions below pin the exact wire bytes of every value; the
//! encoders produce them and the decoders invert them.

use crate::error::OpenCliError;
use crate::ipc::IpcRequest;
use crate::ipc::IpcResponse;
use crate::ipc::spec_opt_view;
use crate::ipc::spec_pair_views;
use crate::ipc::spec_str_views;
use vstd::arithmetic::div_mod::lemma_fundamental_div_mod;
use vstd::arithmetic::div_mod::lemma_multiply_divide_lt;
use vstd::prelude::*;
use vstd::slice::slice_index_get;
use vstd::slice::slice_subrange;
use vstd::slice::slice_to_vec;
use vstd::string::StringExecFns;
use vstd::utf8::encode_utf8;
use vstd::utf8::encode_utf8_decode_utf8;
use vstd::utf8::encode_utf8_valid_utf8;
use vstd::utf8::valid_utf8;

verus! {

// ---------------------------------------------------------------------------
// Big-endian length fields
// ---------------------------------------------------------------------------
/// The `k`-byte big-endian form of `n` (modulo 256^k).
pub open spec fn spec_be_bytes(n: int, k: nat) -> Seq<u8>
    decreases k,
{
    if k == 0 {
        Seq::empty()
    } else {
        spec_be_bytes(n / 256, (k - 1) as nat).push((n % 256) as u8)
    }
}

/// The value read back from a big-endian byte string.
pub open spec fn spec_be_val(s: Seq<u8>) -> int
    decreases s.len(),
{
    if s.len() == 0 {
        0
    } else {
        spec_be_val(s.drop_last()) * 256 + s.last()
    }
}

/// 256 to the `k`-th power.
pub open spec fn pow256(k: nat) -> int
    decreases k,
{
    if k == 0 {
        1
    } else {
        256 * pow256((k - 1) as nat)
    }
}

proof fn lemma_be_bytes_len(n: int, k: nat)
    ensures
        spec_be_bytes(n, k).len() == k,
    decreases k,
{
    if k > 0 {
        lemma_be_bytes_len(n / 256, (k - 1) as nat);
    }
}

proof fn lemma_pow256_pos(k: nat)
    ensures
        pow256(k) >= 1,
    decreases k,
{
    if k > 0 {
        lemma_pow256_pos((k - 1) as nat);
    }
}

proof fn lemma_pow256_mono(a: nat, b: nat)
    requires
        a <= b,
    ensures
        pow256(a) <= pow256(b),
    decreases b,
{
    if a < b {
        lemma_pow256_mono(a, (b - 1) as nat);
        lemma_pow256_pos((b - 1) as nat);
    }
}

proof fn lemma_pow256_values()
    ensures
        pow256(0) == 1,
        pow256(1) == 0x100,
        pow256(2) == 0x1_0000,
        pow256(3) == 0x100_0000,
        pow256(4) == 0x1_0000_0000,
        pow256(5) == 0x100_0000_0000,
        pow256(6) == 0x1_0000_0000_0000,
        pow256(7) == 0x100_0000_0000_0000,
        pow256(8) == 0x1_0000_0000_0000_0000,
{
    assert(pow256(0) == 1);
    assert(pow256(1) == 256 * pow256(0));
    assert(pow256(2) == 256 * pow256(1));
    assert(pow256(3) == 256 * pow256(2));
    assert(pow256(4) == 256 * pow256(3));
    assert(pow256(5) == 256 * pow256(4));
    assert(pow256(6) == 256 * pow256(5));
    assert(pow256(7) == 256 * pow256(6));
    assert(pow256(8) == 256 * pow256(7));
}

proof fn lemma_be_val_bound(s: Seq<u8>)
    ensures
        0 <= spec_be_val(s) < pow256(s.len()),
    decreases s.len(),
{
    if s.len() > 0 {
        lemma_be_val_bound(s.drop_last());
    }
}

/// Reading back the big-endian bytes of any value below 256^k yields the
/// value itself.
proof fn lemma_be_val_be_bytes(n: int, k: nat)
    requires
        0 <= n < pow256(k),
    ensures
        spec_be_val(spec_be_bytes(n, k)) == n,
    decreases k,
{
    if k > 0 {
        lemma_be_bytes_len(n / 256, (k - 1) as nat);
        assert(spec_be_bytes(n, k).drop_last() =~= spec_be_bytes(n / 256, (k - 1) as nat));
        lemma_multiply_divide_lt(n, 256, pow256((k - 1) as nat));
        lemma_be_val_be_bytes(n / 256, (k - 1) as nat);
        lemma_fundamental_div_mod(n, 256);
    }
}

/// Append the `k`-byte big-endian form of `n`.
fn push_be(out: &mut Vec<u8>, n: u64, k: usize)
    requires
        k <= 8,
    ensures
        final(out)@ == old(out)@ + spec_be_bytes(n as int, k as nat),
    decreases k,
{
    if k == 0 {
        assert(out@ =~= old(out)@ + spec_be_bytes(n as int, 0));
        return ;
    }
    push_be(out, n / 256, k - 1);
    out.push((n % 256) as u8);
    assert(out@ =~= old(out)@ + spec_be_bytes(n as int, k as nat));
}

/// Read `k` big-endian bytes starting at `pos`.
fn read_be(bytes: &[u8], pos: usize, k: usize) -> (r: u64)
    requires
        k <= 8,
        pos + k <= bytes@.len(),
    ensures
        r as int == spec_be_val(bytes@.subrange(pos as int, pos + k)),
{
    let ghost s = bytes@.subrange(pos as int, pos + k);
    let n = bytes.len();
    let mut acc: u64 = 0;
    let mut i: usize = 0;
    while i < k
        invariant
            i <= k,
            k <= 8,
            pos + k <= n == bytes@.len(),
            s == bytes@.subrange(pos as int, pos + k),
            acc as int == spec_be_val(s.take(i as int)),
            (acc as int) < pow256(i as nat),
        decreases k - i,
    {
        proof {
            lemma_pow256_values();
            lemma_pow256_mono(i as nat, 7);
        }
        let b = *slice_index_get(bytes, pos + i);
        proof {
            assert(s.take(i + 1).drop_last() =~= s.take(i as int));
            assert(s.take(i + 1).last() == s[i as int]);
            assert(s[i as int] == bytes@[pos + i]);
        }
        acc = acc * 256 + b as u64;
        i += 1;
    }
    proof {
        assert(s.take(k as int) =~= s);
    }
    acc
}

// ---------------------------------------------------------------------------
// Wire forms of the scalar values
// ---------------------------------------------------------------------------
/// An unsigned integer in its shortest form: positive fixint, or the
/// 8/16/32/64-bit form behind its tag.
pub open spec fn spec_enc_uint(n: u64) -> Seq<u8> {
    if n <= 0x7f {
        seq![n as u8]
    } else if n <= 0xff {
        seq![0xccu8] + spec_be_bytes(n as int, 1)
    } else if n <= 0xffff {
        seq![0xcdu8] + spec_be_bytes(n as int, 2)
    } else if n <= 0xffff_ffff {
        seq![0xceu8] + spec_be_bytes(n as int, 4)
    } else {
        seq![0xcfu8] + spec_be_bytes(n as int, 8)
    }
}

/// The string header for a UTF-8 payload of `blen` bytes, in its shortest
/// form: fixstr, or the 8/16/32-bit length behind its tag.
pub open spec fn spec_str_header(blen: int) -> Seq<u8>
    recommends
        0 <= blen <= 0xffff_ffff,
{
    if blen < 32 {
        seq![(0xa0 + blen) as u8]
    } else if blen <= 0xff {
        seq![0xd9u8] + spec_be_bytes(blen, 1)
    } else if blen <= 0xffff {
        seq![0xdau8] + spec_be_bytes(blen, 2)
    } else {
        seq![0xdbu8] + spec_be_bytes(blen, 4)
    }
}

/// A string: its header, then its UTF-8 bytes.
pub open spec fn spec_enc_str(s: Seq<char>) -> Seq<u8> {
    spec_str_header(encode_utf8(s).len() as int) + encode_utf8(s)
}

/// Whether a string's UTF-8 form fits the 32-bit length header.
pub open spec fn str_encodable(s: Seq<char>) -> bool {
    encode_utf8(s).len() <= 0xffff_ffff
}

/// An array header for `n` elements, in its shortest form.
pub open spec fn spec_arr_header(n: int) -> Seq<u8>
    recommends
        0 <= n <= 0xffff_ffff,
{
    if n < 16 {
        seq![(0x90 + n) as u8]
    } else if n <= 0xffff {
        seq![0xdcu8] + spec_be_bytes(n, 2)
    } else {
        seq![0xddu8] + spec_be_bytes(n, 4)
    }
}

/// A map header for `n` key/value pairs, in its shortest form.
pub open spec fn spec_map_header(n: int) -> Seq<u8>
    recommends
        0 <= n <= 0xffff_ffff,
{
    if n < 16 {
        seq![(0x80 + n) as u8]
    } else if n <= 0xffff {
        seq![0xdeu8] + spec_be_bytes(n, 2)
    } else {
        seq![0xdfu8] + spec_be_bytes(n, 4)
    }
}

/// The boolean tags.
pub open spec fn spec_enc_bool(b: bool) -> Seq<u8> {
    if b {
        seq![0xc3u8]
    } else {
        seq![0xc2u8]
    }
}

/// The nil tag, used for an absent optional field.
pub open spec fn spec_enc_nil() -> Seq<u8> {
    seq![0xc0u8]
}

// ---------------------------------------------------------------------------
// Wire forms of the composite values
// ---------------------------------------------------------------------------
/// The concatenated encodings of a sequence of strings.
pub open spec fn spec_enc_str_seq(ss: Seq<Seq<char>>) -> Seq<u8>
    decreases ss.len(),
{
    if ss.len() == 0 {
        Seq::empty()
    } else {
        spec_enc_str_seq(ss.drop_last()) + spec_enc_str(ss.last())
    }
}

/// An array of strings: its header, then each element in order.
pub open spec fn spec_enc_str_arr(ss: Seq<Seq<char>>) -> Seq<u8> {
    spec_arr_header(ss.len() as int) + spec_enc_str_seq(ss)
}

/// Whether every string of a sequence is encodable and the count fits the
/// 32-bit array header.
pub open spec fn str_seq_encodable(ss: Seq<Seq<char>>) -> bool {
    &&& ss.len() <= 0xffff_ffff
    &&& forall|i: int| 0 <= i < ss.len() ==> #[trigger] str_encodable(ss[i])
}

/// The concatenated encodings of a sequence of string pairs.
pub open spec fn spec_enc_pair_seq(ps: Seq<(Seq<char>, Seq<char>)>) -> Seq<u8>
    decreases ps.len(),
{
    if ps.len() == 0 {
        Seq::empty()
    } else {
        spec_enc_pair_seq(ps.drop_last()) + spec_enc_str(ps.last().0) + spec_enc_str(ps.last().1)
    }
}

/// A map of string pairs: its header, then each key and value in order.
pub open spec fn spec_enc_map(ps: Seq<(Seq<char>, Seq<char>)>) -> Seq<u8> {
    spec_map_header(ps.len() as int) + spec_enc_pair_seq(ps)
}

/// Whether both strings of one pair are encodable.
pub open spec fn pair_encodable(p: (Seq<char>, Seq<char>)) -> bool {
    str_encodable(p.0) && str_encodable(p.1)
}

/// Whether every pair of a mapping is encodable and the count fits the
/// 32-bit map header.
pub open spec fn pair_seq_encodable(ps: Seq<(Seq<char>, Seq<char>)>) -> bool {
    &&& ps.len() <= 0xffff_ffff
    &&& forall|i: int| 0 <= i < ps.len() ==> #[trigger] pair_encodable(ps[i])
}

/// An optional string: nil when absent.
pub open spec fn spec_enc_opt_str(o: Option<Seq<char>>) -> Seq<u8> {
    match o {
        None => spec_enc_nil(),
        Some(s) => spec_enc_str(s),
    }
}

/// Whether an optional string is encodable.
pub open spec fn opt_str_encodable(o: Option<Seq<char>>) -> bool {
    o matches Some(s) ==> str_encodable(s)
}

/// An optional unsigned integer: nil when absent.
pub open spec fn spec_enc_opt_uint(o: Option<u64>) -> Seq<u8> {
    match o {
        None => spec_enc_nil(),
        Some(n) => spec_enc_uint(n),
    }
}

// ---------------------------------------------------------------------------
// Wire forms of the records
// ---------------------------------------------------------------------------
/// The complete wire form of a request: one 5-element array holding
/// method, params, context, request_id and timeout_ms, in that order.
pub open spec fn spec_enc_request(r: &IpcRequest) -> Seq<u8> {
    spec_arr_header(5) + spec_enc_str(r.method@) + spec_enc_str_arr(spec_str_views(r.params@))
        + spec_enc_map(spec_pair_views(r.context@)) + spec_enc_opt_str(
        spec_opt_view(r.request_id),
    ) + spec_enc_opt_uint(r.timeout_ms)
}

/// Whether every field of a request fits the format's 32-bit limits.
pub open spec fn request_encodable(r: &IpcRequest) -> bool {
    &&& str_encodable(r.method@)
    &&& str_seq_encodable(spec_str_views(r.params@))
    &&& pair_seq_encodable(spec_pair_views(r.context@))
    &&& opt_str_encodable(spec_opt_view(r.request_id))
}

/// The complete wire form of a response: one 6-element array holding
/// success, result, duration_us, cached, request_id and error, in that
/// order.
pub open spec fn spec_enc_response(r: &IpcResponse) -> Seq<u8> {
    spec_arr_header(6) + spec_enc_bool(r.success) + spec_enc_str(r.result@) + spec_enc_uint(
        r.duration_us,
    ) + spec_enc_bool(r.cached) + spec_enc_opt_str(spec_opt_view(r.request_id))
        + spec_enc_opt_str(spec_opt_view(r.error))
}

/// Whether every field of a response fits the format's 32-bit limits.
pub open spec fn response_encodable(r: &IpcResponse) -> bool {
    &&& str_encodable(r.result@)
    &&& opt_str_encodable(spec_opt_view(r.request_id))
    &&& opt_str_encodable(spec_opt_view(r.error))
}

// ---------------------------------------------------------------------------
// Encoders
// ---------------------------------------------------------------------------
/// Append the shortest form of `n`.
fn push_uint(out: &mut Vec<u8>, n: u64)
    ensures
        final(out)@ == old(out)@ + spec_enc_uint(n),
{
    if n <= 0x7f {
        out.push(n as u8);
    } else if n <= 0xff {
        out.push(0xccu8);
        push_be(out, n, 1);
    } else if n <= 0xffff {
        out.push(0xcdu8);
        push_be(out, n, 2);
    } else if n <= 0xffff_ffff {
        out.push(0xceu8);
        push_be(out, n, 4);
    } else {
        out.push(0xcfu8);
        push_be(out, n, 8);
    }
    assert(out@ =~= old(out)@ + spec_enc_uint(n));
}

/// Append a string header and the string's UTF-8 bytes; fails, leaving the
/// buffer unchanged, exactly when they do not fit a 32-bit length.
fn push_str(out: &mut Vec<u8>, s: &str) -> (r: Result<(), OpenCliError>)
    ensures
        str_encodable(s@) ==> r is Ok && final(out)@ == old(out)@ + spec_enc_str(s@),
        !str_encodable(s@) ==> (r matches Err(e) && e is SerializationError && final(out)@
            == old(out)@),
{
    let b = s.as_bytes();
    let blen = b.len();
    if blen as u64 > 0xffff_ffffu64 {
        return Err(
            OpenCliError::SerializationError(
                String::from_str("string exceeds the 32-bit length limit"),
            ),
        );
    }
    if blen < 32 {
        out.push(0xa0u8 + blen as u8);
    } else if blen <= 0xff {
        out.push(0xd9u8);
        push_be(out, blen as u64, 1);
    } else if blen <= 0xffff {
        out.push(0xdau8);
        push_be(out, blen as u64, 2);
    } else {
        out.push(0xdbu8);
        push_be(out, blen as u64, 4);
    }
    let mut bv = slice_to_vec(b);
    out.append(&mut bv);
    assert(out@ =~= old(out)@ + spec_enc_str(s@));
    Ok(())
}

/// Append an array header for `n` elements.
fn push_arr_header(out: &mut Vec<u8>, n: usize)
    requires
        n <= 0xffff_ffff,
    ensures
        final(out)@ == old(out)@ + spec_arr_header(n as int),
{
    if n < 16 {
        out.push(0x90u8 + n as u8);
    } else if n <= 0xffff {
        out.push(0xdcu8);
        push_be(out, n as u64, 2);
    } else {
        out.push(0xddu8);
        push_be(out, n as u64, 4);
    }
    assert(out@ =~= old(out)@ + spec_arr_header(n as int));
}

/// Append a map header for `n` pairs.
fn push_map_header(out: &mut Vec<u8>, n: usize)
    requires
        n <= 0xffff_ffff,
    ensures
        final(out)@ == old(out)@ + spec_map_header(n as int),
{
    if n < 16 {
        out.push(0x80u8 + n as u8);
    } else if n <= 0xffff {
        out.push(0xdeu8);
        push_be(out, n as u64, 2);
    } else {
        out.push(0xdfu8);
        push_be(out, n as u64, 4);
    }
    assert(out@ =~= old(out)@ + spec_map_header(n as int));
}

/// Encode a request to its complete wire form.  Succeeds, with exactly the
/// bytes of [`spec_enc_request`], if and only if every field fits the
/// format's 32-bit limits.
pub fn encode_request(r: &IpcRequest) -> (res: Result<Vec<u8>, OpenCliError>)
    ensures
        request_encodable(r) ==> (res matches Ok(b) && b@ == spec_enc_request(r)),
        !request_encodable(r) ==> (res matches Err(e) && e is SerializationError),
{
    let ghost ss = spec_str_views(r.params@);
    let ghost ps = spec_pair_views(r.context@);
    let mut out: Vec<u8> = Vec::new();
    push_arr_header(&mut out, 5);
    match push_str(&mut out, r.method.as_str()) {
        Ok(_) => {},
        Err(e) => {
            return Err(e);
        },
    }
    if r.params.len() as u64 > 0xffff_ffffu64 {
        return Err(OpenCliError::SerializationError(String::from_str("too many parameters")));
    }
    push_arr_header(&mut out, r.params.len());
    let ghost head = spec_arr_header(5) + spec_enc_str(r.method@) + spec_arr_header(
        r.params@.len() as int,
    );
    assert(out@ =~= head + spec_enc_str_seq(ss.take(0)));
    let mut i: usize = 0;
    while i < r.params.len()
        invariant
            i <= r.params@.len(),
            ss == spec_str_views(r.params@),
            ss.len() == r.params@.len() <= 0xffff_ffff,
            out@ == head + spec_enc_str_seq(ss.take(i as int)),
            forall|j: int| 0 <= j < i ==> str_encodable(#[trigger] ss[j]),
        decreases r.params@.len() - i,
    {
        let p = &r.params[i];
        match push_str(&mut out, p.as_str()) {
            Ok(_) => {},
            Err(e) => {
                assert(!str_encodable(ss[i as int]));
                return Err(e);
            },
        }
        proof {
            assert(ss.take(i + 1).drop_last() =~= ss.take(i as int));
            assert(ss.take(i + 1).last() == ss[i as int]);
            assert(out@ =~= head + spec_enc_str_seq(ss.take(i + 1)));
        }
        i += 1;
    }
    assert(ss.take(ss.len() as int) =~= ss);
    if r.context.len() as u64 > 0xffff_ffffu64 {
        return Err(OpenCliError::SerializationError(String::from_str("too many context entries")));
    }
    push_map_header(&mut out, r.context.len());
    let ghost head2 = head + spec_enc_str_seq(ss) + spec_map_header(r.context@.len() as int);
    assert(out@ =~= head2 + spec_enc_pair_seq(ps.take(0)));
    let mut j: usize = 0;
    while j < r.context.len()
        invariant
            j <= r.context@.len(),
            ps == spec_pair_views(r.context@),
            ps.len() == r.context@.len() <= 0xffff_ffff,
            out@ == head2 + spec_enc_pair_seq(ps.take(j as int)),
            forall|m: int| 0 <= m < j ==> #[trigger] pair_encodable(ps[m]),
        decreases r.context@.len() - j,
    {
        let pair = &r.context[j];
        match push_str(&mut out, pair.0.as_str()) {
            Ok(_) => {},
            Err(e) => {
                assert(!pair_encodable(ps[j as int]));
                return Err(e);
            },
        }
        match push_str(&mut out, pair.1.as_str()) {
            Ok(_) => {},
            Err(e) => {
                assert(!pair_encodable(ps[j as int]));
                return Err(e);
            },
        }
        proof {
            assert(ps.take(j + 1).drop_last() =~= ps.take(j as int));
            assert(ps.take(j + 1).last() == ps[j as int]);
            assert(out@ =~= head2 + spec_enc_pair_seq(ps.take(j + 1)));
        }
        j += 1;
    }
    assert(ps.take(ps.len() as int) =~= ps);
    match &r.request_id {
        None => {
            out.push(0xc0u8);
        },
        Some(s) => {
            match push_str(&mut out, s.as_str()) {
                Ok(_) => {},
                Err(e) => {
                    return Err(e);
                },
            }
        },
    }
    match r.timeout_ms {
        None => {
            out.push(0xc0u8);
        },
        Some(n) => {
            push_uint(&mut out, n);
        },
    }
    assert(out@ =~= spec_enc_request(r));
    Ok(out)
}

/// Encode a response to its complete wire form.  Succeeds, with exactly
/// the bytes of [`spec_enc_response`], if and only if every field fits the
/// format's 32-bit limits.
pub fn encode_response(r: &IpcResponse) -> (res: Result<Vec<u8>, OpenCliError>)
    ensures
        response_encodable(r) ==> (res matches Ok(b) && b@ == spec_enc_response(r)),
        !response_encodable(r) ==> (res matches Err(e) && e is SerializationError),
{
    let mut out: Vec<u8> = Vec::new();
    push_arr_header(&mut out, 6);
    out.push(if r.success {
        0xc3u8
    } else {
        0xc2u8
    });
    match push_str(&mut out, r.result.as_str()) {
        Ok(_) => {},
        Err(e) => {
            return Err(e);
        },
    }
    push_uint(&mut out, r.duration_us);
    out.push(if r.cached {
        0xc3u8
    } else {
        0xc2u8
    });
    match &r.request_id {
        None => {
            out.push(0xc0u8);
        },
        Some(s) => {
            match push_str(&mut out, s.as_str()) {
                Ok(_) => {},
                Err(e) => {
                    return Err(e);
                },
            }
        },
    }
    match &r.error {
        None => {
            out.push(0xc0u8);
        },
        Some(s) => {
            match push_str(&mut out, s.as_str()) {
                Ok(_) => {},
                Err(e) => {
                    return Err(e);
                },
            }
        },
    }
    assert(out@ =~= spec_enc_response(r));
    Ok(out)
}

// ---------------------------------------------------------------------------
// Decoders
// ---------------------------------------------------------------------------
/// Whether `enc` stands in `bytes` at position `pos`.
pub open spec fn can_read(bytes: Seq<u8>, pos: int, enc: Seq<u8>) -> bool {
    &&& 0 <= pos
    &&& pos + enc.len() <= bytes.len()
    &&& bytes.subrange(pos, pos + enc.len()) == enc
}

proof fn lemma_can_read_index(bytes: Seq<u8>, pos: int, e: Seq<u8>)
    requires
        can_read(bytes, pos, e),
    ensures
        forall|i: int| 0 <= i < e.len() ==> bytes[pos + i] == #[trigger] e[i],
{
    assert forall|i: int| 0 <= i < e.len() implies bytes[pos + i] == e[i] by {
        assert(bytes.subrange(pos, pos + e.len())[i] == e[i]);
    }
}

proof fn lemma_can_read_subrange(bytes: Seq<u8>, pos: int, e: Seq<u8>, i: int, j: int)
    requires
        can_read(bytes, pos, e),
        0 <= i <= j <= e.len(),
    ensures
        bytes.subrange(pos + i, pos + j) == e.subrange(i, j),
{
    lemma_can_read_index(bytes, pos, e);
    assert(bytes.subrange(pos + i, pos + j) =~= e.subrange(i, j));
}

proof fn lemma_can_read_concat(bytes: Seq<u8>, pos: int, e1: Seq<u8>, e2: Seq<u8>)
    requires
        can_read(bytes, pos, e1 + e2),
    ensures
        can_read(bytes, pos, e1),
        can_read(bytes, pos + e1.len(), e2),
{
    lemma_can_read_subrange(bytes, pos, e1 + e2, 0, e1.len() as int);
    assert((e1 + e2).subrange(0, e1.len() as int) =~= e1);
    lemma_can_read_subrange(bytes, pos, e1 + e2, e1.len() as int, (e1 + e2).len() as int);
    assert((e1 + e2).subrange(e1.len() as int, (e1 + e2).len() as int) =~= e2);
}

// ---------------------------------------------------------------------------
// Accepted wire images
// ---------------------------------------------------------------------------
// The encoders emit only the shortest form of each value, but the format
// admits longer ones (a small length in a 16-bit header), and the decoders
// accept them all.  These predicates describe every byte string a decoder
// accepts for a value: they are what a decoder's success certifies.
/// Every accepted image of the unsigned integer `n`.
pub open spec fn spec_uint_form(e: Seq<u8>, n: u64) -> bool {
    ||| (e.len() == 1 && e[0] <= 0x7f && n == e[0])
    ||| (e.len() == 2 && e[0] == 0xcc && n == spec_be_val(e.subrange(1, 2)))
    ||| (e.len() == 3 && e[0] == 0xcd && n == spec_be_val(e.subrange(1, 3)))
    ||| (e.len() == 5 && e[0] == 0xce && n == spec_be_val(e.subrange(1, 5)))
    ||| (e.len() == 9 && e[0] == 0xcf && n == spec_be_val(e.subrange(1, 9)))
}

/// Every accepted image of the string `s`: one of the four header forms
/// announcing the length of the UTF-8 bytes, then those bytes.
pub open spec fn spec_str_form(e: Seq<u8>, s: Seq<char>) -> bool {
    let cb = encode_utf8(s);
    ||| (e.len() == 1 + cb.len() && 0xa0 <= e[0] && e[0] <= 0xbf && e[0] - 0xa0 == cb.len()
        && e.skip(1) == cb)
    ||| (e.len() >= 2 && e[0] == 0xd9 && spec_be_val(e.subrange(1, 2)) == cb.len() && e.skip(2)
        == cb)
    ||| (e.len() >= 3 && e[0] == 0xda && spec_be_val(e.subrange(1, 3)) == cb.len() && e.skip(3)
        == cb)
    ||| (e.len() >= 5 && e[0] == 0xdb && spec_be_val(e.subrange(1, 5)) == cb.len() && e.skip(5)
        == cb)
}

/// Every accepted image of an array header announcing `m` elements.
pub open spec fn spec_arr_hdr_form(e: Seq<u8>, m: int) -> bool {
    ||| (e.len() == 1 && 0x90 <= e[0] && e[0] <= 0x9f && m == e[0] - 0x90)
    ||| (e.len() == 3 && e[0] == 0xdc && m == spec_be_val(e.subrange(1, 3)))
    ||| (e.len() == 5 && e[0] == 0xdd && m == spec_be_val(e.subrange(1, 5)))
}

/// Every accepted image of an optional string: nil, or a string image.
pub open spec fn spec_opt_str_form(e: Seq<u8>, o: Option<Seq<char>>) -> bool {
    match o {
        None => e == spec_enc_nil(),
        Some(s) => spec_str_form(e, s),
    }
}

/// One self-delimiting value of scalar or string form, whatever it holds:
/// the form an added optional field of a future record version may use.
pub open spec fn spec_skip_form(e: Seq<u8>) -> bool {
    &&& e.len() >= 1
    &&& {
        ||| (e.len() == 1 && (e[0] <= 0x7f || e[0] == 0xc0 || e[0] == 0xc2 || e[0] == 0xc3))
        ||| (e.len() == 2 && e[0] == 0xcc)
        ||| (e.len() == 3 && e[0] == 0xcd)
        ||| (e.len() == 5 && e[0] == 0xce)
        ||| (e.len() == 9 && e[0] == 0xcf)
        ||| (0xa0 <= e[0] && e[0] <= 0xbf && e.len() == 1 + e[0] - 0xa0)
        ||| (e.len() >= 2 && e[0] == 0xd9 && e.len() == 2 + spec_be_val(e.subrange(1, 2)))
        ||| (e.len() >= 3 && e[0] == 0xda && e.len() == 3 + spec_be_val(e.subrange(1, 3)))
        ||| (e.len() >= 5 && e[0] == 0xdb && e.len() == 5 + spec_be_val(e.subrange(1, 5)))
    }
}

/// `k` skip-form values, one after the other.
pub open spec fn spec_skip_chain(e: Seq<u8>, k: nat) -> bool
    decreases k,
{
    if k == 0 {
        e.len() == 0
    } else {
        exists|j: int|
            0 <= j <= e.len() && spec_skip_chain(e.subrange(0, j), (k - 1) as nat)
                && spec_skip_form(#[trigger] e.subrange(j, e.len() as int))
    }
}

proof fn lemma_skip_chain_snoc(bytes: Seq<u8>, a: int, b: int, c: int, k: nat)
    requires
        0 <= a <= b <= c <= bytes.len(),
        spec_skip_chain(bytes.subrange(a, b), k),
        spec_skip_form(bytes.subrange(b, c)),
    ensures
        spec_skip_chain(bytes.subrange(a, c), (k + 1) as nat),
{
    let e = bytes.subrange(a, c);
    let j = b - a;
    assert(e.subrange(0, j) =~= bytes.subrange(a, b));
    assert(e.subrange(j, e.len() as int) =~= bytes.subrange(b, c));
    assert(0 <= j <= e.len() && spec_skip_chain(e.subrange(0, j), k) && spec_skip_form(
        e.subrange(j, e.len() as int),
    ));
    assert(spec_skip_chain(e, (k + 1) as nat));
}

/// The concatenation of a sequence of byte strings.
pub open spec fn spec_cat_bytes(xs: Seq<Seq<u8>>) -> Seq<u8>
    decreases xs.len(),
{
    if xs.len() == 0 {
        Seq::empty()
    } else {
        spec_cat_bytes(xs.drop_last()) + xs.last()
    }
}

/// Whether every element has a scalar or string skip form.
pub open spec fn spec_skip_forms(xs: Seq<Seq<u8>>) -> bool {
    forall|i: int| 0 <= i < xs.len() ==> #[trigger] spec_skip_form(xs[i])
}

proof fn lemma_cat_bytes_concat(a: Seq<Seq<u8>>, b: Seq<Seq<u8>>)
    ensures
        spec_cat_bytes(a + b) == spec_cat_bytes(a) + spec_cat_bytes(b),
    decreases b.len(),
{
    if b.len() == 0 {
        assert(a + b =~= a);
        assert(spec_cat_bytes(a) + spec_cat_bytes(b) =~= spec_cat_bytes(a));
    } else {
        lemma_cat_bytes_concat(a, b.drop_last());
        assert((a + b).drop_last() =~= a + b.drop_last());
        assert(spec_cat_bytes(a + b) == spec_cat_bytes(a + b.drop_last()) + b.last());
        assert(spec_cat_bytes(a) + spec_cat_bytes(b) =~= spec_cat_bytes(a) + spec_cat_bytes(
            b.drop_last(),
        ) + b.last());
    }
}

proof fn lemma_skip_cat_at(bytes: Seq<u8>, start: int, xs: Seq<Seq<u8>>, i: int, cur: int)
    requires
        spec_skip_forms(xs),
        can_read(bytes, start, spec_cat_bytes(xs)),
        0 <= i < xs.len(),
        cur == start + spec_cat_bytes(xs.take(i)).len(),
    ensures
        spec_skip_form(xs[i]),
        can_read(bytes, cur, xs[i]),
        spec_cat_bytes(xs.take(i + 1)) == spec_cat_bytes(xs.take(i)) + xs[i],
{
    assert(xs.take(i + 1).drop_last() =~= xs.take(i));
    assert(spec_cat_bytes(xs.take(i + 1)) == spec_cat_bytes(xs.take(i)) + xs[i]);
    assert(xs =~= xs.take(i + 1) + xs.skip(i + 1));
    lemma_cat_bytes_concat(xs.take(i + 1), xs.skip(i + 1));
    assert(spec_cat_bytes(xs) =~= spec_cat_bytes(xs.take(i)) + (xs[i] + spec_cat_bytes(
        xs.skip(i + 1),
    )));
    lemma_can_read_concat(
        bytes,
        start,
        spec_cat_bytes(xs.take(i)),
        xs[i] + spec_cat_bytes(xs.skip(i + 1)),
    );
    lemma_can_read_concat(bytes, cur, xs[i], spec_cat_bytes(xs.skip(i + 1)));
}

/// Concatenating string sequences concatenates their encodings.
proof fn lemma_enc_str_seq_concat(a: Seq<Seq<char>>, b: Seq<Seq<char>>)
    ensures
        spec_enc_str_seq(a + b) == spec_enc_str_seq(a) + spec_enc_str_seq(b),
    decreases b.len(),
{
    if b.len() == 0 {
        assert(a + b =~= a);
        assert(spec_enc_str_seq(a) + spec_enc_str_seq(b) =~= spec_enc_str_seq(a));
    } else {
        lemma_enc_str_seq_concat(a, b.drop_last());
        assert((a + b).drop_last() =~= a + b.drop_last());
        assert(spec_enc_str_seq(a + b) == spec_enc_str_seq(a + b.drop_last()) + spec_enc_str(
            b.last(),
        ));
        assert(spec_enc_str_seq(a) + spec_enc_str_seq(b) =~= spec_enc_str_seq(a)
            + spec_enc_str_seq(b.drop_last()) + spec_enc_str(b.last()));
    }
}

/// Concatenating pair sequences concatenates their encodings.
proof fn lemma_enc_pair_seq_concat(a: Seq<(Seq<char>, Seq<char>)>, b: Seq<(Seq<char>, Seq<char>)>)
    ensures
        spec_enc_pair_seq(a + b) == spec_enc_pair_seq(a) + spec_enc_pair_seq(b),
    decreases b.len(),
{
    if b.len() == 0 {
        assert(a + b =~= a);
        assert(spec_enc_pair_seq(a) + spec_enc_pair_seq(b) =~= spec_enc_pair_seq(a));
    } else {
        lemma_enc_pair_seq_concat(a, b.drop_last());
        assert((a + b).drop_last() =~= a + b.drop_last());
        assert(spec_enc_pair_seq(a + b) == spec_enc_pair_seq(a + b.drop_last()) + spec_enc_str(
            b.last().0,
        ) + spec_enc_str(b.last().1));
        assert(spec_enc_pair_seq(a) + spec_enc_pair_seq(b) =~= spec_enc_pair_seq(a)
            + spec_enc_pair_seq(b.drop_last()) + spec_enc_str(b.last().0) + spec_enc_str(
            b.last().1,
        ));
    }
}

/// Relies on String::from_utf8: it accepts exactly the valid UTF-8 byte
/// strings, and the characters of its result encode back to the input.
#[verifier::external_body]
fn bytes_to_string(b: Vec<u8>) -> (r: Option<String>)
    ensures
        r matches Some(s) ==> encode_utf8(s@) == b@,
        valid_utf8(b@) ==> r is Some,
{
    match String::from_utf8(b) {
        Ok(s) => Some(s),
        Err(_) => None,
    }
}

/// Read one unsigned integer.  Whenever the bytes at `pos` hold the
/// encoding of a value, that value and the position after it come back.
fn parse_uint(bytes: &[u8], pos: usize) -> (r: Option<(u64, usize)>)
    requires
        pos <= bytes@.len(),
    ensures
        forall|n: u64|
            can_read(bytes@, pos as int, #[trigger] spec_enc_uint(n)) ==> (r matches Some(p)
                && p.0 == n && p.1 == pos + spec_enc_uint(n).len()),
        r matches Some(p) ==> pos < p.1 <= bytes@.len() && spec_uint_form(
            bytes@.subrange(pos as int, p.1 as int),
            p.0,
        ),
{
    let len = bytes.len();
    let r: Option<(u64, usize)>;
    if len - pos < 1 {
        r = None;
    } else {
        let b0 = *slice_index_get(bytes, pos);
        if b0 <= 0x7f {
            r = Some((b0 as u64, pos + 1));
        } else if b0 == 0xcc && len - pos >= 2 {
            r = Some((read_be(bytes, pos + 1, 1), pos + 2));
        } else if b0 == 0xcd && len - pos >= 3 {
            r = Some((read_be(bytes, pos + 1, 2), pos + 3));
        } else if b0 == 0xce && len - pos >= 5 {
            r = Some((read_be(bytes, pos + 1, 4), pos + 5));
        } else if b0 == 0xcf && len - pos >= 9 {
            r = Some((read_be(bytes, pos + 1, 8), pos + 9));
        } else {
            r = None;
        }
    }
    proof {
        match r {
            Some(p) => {
                let e = bytes@.subrange(pos as int, p.1 as int);
                assert(e[0] == bytes@[pos as int]);
                if p.1 == pos + 2 {
                    assert(e.subrange(1, 2) =~= bytes@.subrange(pos + 1, pos + 2));
                }
                if p.1 == pos + 3 {
                    assert(e.subrange(1, 3) =~= bytes@.subrange(pos + 1, pos + 3));
                }
                if p.1 == pos + 5 {
                    assert(e.subrange(1, 5) =~= bytes@.subrange(pos + 1, pos + 5));
                }
                if p.1 == pos + 9 {
                    assert(e.subrange(1, 9) =~= bytes@.subrange(pos + 1, pos + 9));
                }
                assert(spec_uint_form(e, p.0));
            },
            None => {},
        }
        assert forall|n: u64|
            can_read(bytes@, pos as int, #[trigger] spec_enc_uint(n)) implies (r matches Some(p)
            && p.0 == n && p.1 == pos + spec_enc_uint(n).len()) by {
            let e = spec_enc_uint(n);
            lemma_pow256_values();
            lemma_be_bytes_len(n as int, 1);
            lemma_be_bytes_len(n as int, 2);
            lemma_be_bytes_len(n as int, 4);
            lemma_be_bytes_len(n as int, 8);
            lemma_can_read_index(bytes@, pos as int, e);
            assert(bytes@[pos as int] == e[0]);
            if n <= 0x7f {
            } else if n <= 0xff {
                lemma_can_read_subrange(bytes@, pos as int, e, 1, e.len() as int);
                assert(e.subrange(1, e.len() as int) =~= spec_be_bytes(n as int, 1));
                lemma_be_val_be_bytes(n as int, 1);
            } else if n <= 0xffff {
                lemma_can_read_subrange(bytes@, pos as int, e, 1, e.len() as int);
                assert(e.subrange(1, e.len() as int) =~= spec_be_bytes(n as int, 2));
                lemma_be_val_be_bytes(n as int, 2);
            } else if n <= 0xffff_ffff {
                lemma_can_read_subrange(bytes@, pos as int, e, 1, e.len() as int);
                assert(e.subrange(1, e.len() as int) =~= spec_be_bytes(n as int, 4));
                lemma_be_val_be_bytes(n as int, 4);
            } else {
                lemma_can_read_subrange(bytes@, pos as int, e, 1, e.len() as int);
                assert(e.subrange(1, e.len() as int) =~= spec_be_bytes(n as int, 8));
                lemma_be_val_be_bytes(n as int, 8);
            }
        }
    }
    r
}

/// Read one string.  Whenever the bytes at `pos` hold the encoding of an
/// encodable string, that string and the position after it come back.
#[verifier::rlimit(100)]
fn parse_str(bytes: &[u8], pos: usize) -> (r: Option<(String, usize)>)
    requires
        pos <= bytes@.len(),
    ensures
        forall|s: Seq<char>|
            str_encodable(s) && can_read(bytes@, pos as int, #[trigger] spec_enc_str(s)) ==> (
            r matches Some(p) && p.0@ == s && p.1 == pos + spec_enc_str(s).len()),
        r matches Some(p) ==> pos < p.1 <= bytes@.len() && spec_str_form(
            bytes@.subrange(pos as int, p.1 as int),
            p.0@,
        ),
{
    let len = bytes.len();
    let hdr: Option<(u64, usize)>;
    if len - pos < 1 {
        hdr = None;
    } else {
        let b0 = *slice_index_get(bytes, pos);
        if 0xa0 <= b0 && b0 <= 0xbf {
            hdr = Some(((b0 - 0xa0) as u64, 1));
        } else if b0 == 0xd9 && len - pos >= 2 {
            hdr = Some((read_be(bytes, pos + 1, 1), 2));
        } else if b0 == 0xda && len - pos >= 3 {
            hdr = Some((read_be(bytes, pos + 1, 2), 3));
        } else if b0 == 0xdb && len - pos >= 5 {
            hdr = Some((read_be(bytes, pos + 1, 4), 5));
        } else {
            hdr = None;
        }
    }
    let r: Option<(String, usize)>;
    match hdr {
        None => {
            r = None;
        },
        Some((blen, h)) => {
            if h > len - pos || blen > (len - pos - h) as u64 {
                r = None;
            } else {
                let start = pos + h;
                let end = start + blen as usize;
                let content = slice_to_vec(slice_subrange(bytes, start, end));
                match bytes_to_string(content) {
                    None => {
                        r = None;
                    },
                    Some(s) => {
                        r = Some((s, end));
                    },
                }
            }
        },
    }
    proof {
        match &r {
            Some(p) => {
                let e = bytes@.subrange(pos as int, p.1 as int);
                assert(e[0] == bytes@[pos as int]);
                if 0xa0 <= e[0] && e[0] <= 0xbf {
                    assert(e.skip(1) =~= bytes@.subrange(pos + 1, p.1 as int));
                } else if e[0] == 0xd9 {
                    assert(e.subrange(1, 2) =~= bytes@.subrange(pos + 1, pos + 2));
                    assert(e.skip(2) =~= bytes@.subrange(pos + 2, p.1 as int));
                } else if e[0] == 0xda {
                    assert(e.subrange(1, 3) =~= bytes@.subrange(pos + 1, pos + 3));
                    assert(e.skip(3) =~= bytes@.subrange(pos + 3, p.1 as int));
                } else {
                    assert(e.subrange(1, 5) =~= bytes@.subrange(pos + 1, pos + 5));
                    assert(e.skip(5) =~= bytes@.subrange(pos + 5, p.1 as int));
                }
                assert(spec_str_form(e, p.0@));
            },
            None => {},
        }
        assert forall|s: Seq<char>|
            str_encodable(s) && can_read(bytes@, pos as int, #[trigger] spec_enc_str(s)) implies (
            r matches Some(p) && p.0@ == s && p.1 == pos + spec_enc_str(s).len()) by {
            let e = spec_enc_str(s);
            let cb = encode_utf8(s);
            let bl = cb.len() as int;
            lemma_pow256_values();
            lemma_be_bytes_len(bl, 1);
            lemma_be_bytes_len(bl, 2);
            lemma_be_bytes_len(bl, 4);
            encode_utf8_valid_utf8(s);
            lemma_can_read_index(bytes@, pos as int, e);
            assert(bytes@[pos as int] == e[0]);
            let hl = spec_str_header(bl).len() as int;
            if bl < 32 {
                assert(hl == 1);
            } else if bl <= 0xff {
                lemma_can_read_subrange(bytes@, pos as int, e, 1, hl);
                assert(e.subrange(1, hl) =~= spec_be_bytes(bl, 1));
                lemma_be_val_be_bytes(bl, 1);
            } else if bl <= 0xffff {
                lemma_can_read_subrange(bytes@, pos as int, e, 1, hl);
                assert(e.subrange(1, hl) =~= spec_be_bytes(bl, 2));
                lemma_be_val_be_bytes(bl, 2);
            } else {
                lemma_can_read_subrange(bytes@, pos as int, e, 1, hl);
                assert(e.subrange(1, hl) =~= spec_be_bytes(bl, 4));
                lemma_be_val_be_bytes(bl, 4);
            }
            lemma_can_read_subrange(bytes@, pos as int, e, hl, hl + bl);
            assert(e.subrange(hl, hl + bl) =~= cb);
            assert(bytes@.subrange(pos + hl, pos + hl + bl) == cb);
            assert(r matches Some(p) && encode_utf8(p.0@) == cb && p.1 == pos + e.len());
            match r {
                Some(p) => {
                    encode_utf8_decode_utf8(p.0@);
                    encode_utf8_decode_utf8(s);
                },
                None => {},
            }
        }
    }
    r
}

/// Read one boolean tag.
fn parse_bool(bytes: &[u8], pos: usize) -> (r: Option<(bool, usize)>)
    requires
        pos <= bytes@.len(),
    ensures
        forall|b: bool|
            can_read(bytes@, pos as int, #[trigger] spec_enc_bool(b)) ==> (r matches Some(p) && p.0
                == b && p.1 == pos + 1),
        r matches Some(p) ==> pos < p.1 <= bytes@.len() && bytes@.subrange(pos as int, p.1 as int)
            == spec_enc_bool(p.0),
{
    let len = bytes.len();
    let r: Option<(bool, usize)>;
    if len - pos < 1 {
        r = None;
    } else {
        let b0 = *slice_index_get(bytes, pos);
        if b0 == 0xc2 {
            r = Some((false, pos + 1));
        } else if b0 == 0xc3 {
            r = Some((true, pos + 1));
        } else {
            r = None;
        }
    }
    proof {
        match r {
            Some(p) => {
                assert(bytes@.subrange(pos as int, p.1 as int) =~= spec_enc_bool(p.0));
            },
            None => {},
        }
        assert forall|b: bool|
            can_read(bytes@, pos as int, #[trigger] spec_enc_bool(b)) implies (r matches Some(p)
            && p.0 == b && p.1 == pos + 1) by {
            let e = spec_enc_bool(b);
            lemma_can_read_index(bytes@, pos as int, e);
            assert(bytes@[pos as int] == e[0]);
        }
    }
    r
}

/// Read one optional string: nil or a string.
fn parse_opt_str(bytes: &[u8], pos: usize) -> (r: Option<(Option<String>, usize)>)
    requires
        pos <= bytes@.len(),
    ensures
        forall|o: Option<Seq<char>>|
            opt_str_encodable(o) && can_read(bytes@, pos as int, #[trigger] spec_enc_opt_str(o))
                ==> (r matches Some(p) && spec_opt_view(p.0) == o && p.1 == pos + spec_enc_opt_str(
                o,
            ).len()),
        r matches Some(p) ==> pos < p.1 <= bytes@.len() && spec_opt_str_form(
            bytes@.subrange(pos as int, p.1 as int),
            spec_opt_view(p.0),
        ),
{
    let len = bytes.len();
    let r: Option<(Option<String>, usize)>;
    if len - pos >= 1 && *slice_index_get(bytes, pos) == 0xc0 {
        r = Some((None, pos + 1));
    } else {
        match parse_str(bytes, pos) {
            Some((s, np)) => {
                r = Some((Some(s), np));
            },
            None => {
                r = None;
            },
        }
    }
    proof {
        match &r {
            Some(p) => {
                match &p.0 {
                    None => {
                        assert(bytes@.subrange(pos as int, p.1 as int) =~= spec_enc_nil());
                    },
                    Some(_) => {},
                }
            },
            None => {},
        }
        assert forall|o: Option<Seq<char>>|
            opt_str_encodable(o) && can_read(
                bytes@,
                pos as int,
                #[trigger] spec_enc_opt_str(o),
            ) implies (r matches Some(p) && spec_opt_view(p.0) == o && p.1 == pos
            + spec_enc_opt_str(o).len()) by {
            let e = spec_enc_opt_str(o);
            lemma_can_read_index(bytes@, pos as int, e);
            assert(bytes@[pos as int] == e[0]);
            match o {
                None => {},
                Some(s) => {
                    let bl = encode_utf8(s).len() as int;
                    lemma_be_bytes_len(bl, 1);
                    lemma_be_bytes_len(bl, 2);
                    lemma_be_bytes_len(bl, 4);
                    assert(e[0] != 0xc0);
                },
            }
        }
    }
    r
}

/// Read one optional unsigned integer: nil or an integer.
fn parse_opt_uint(bytes: &[u8], pos: usize) -> (r: Option<(Option<u64>, usize)>)
    requires
        pos <= bytes@.len(),
    ensures
        forall|o: Option<u64>|
            can_read(bytes@, pos as int, #[trigger] spec_enc_opt_uint(o)) ==> (r matches Some(p)
                && p.0 == o && p.1 == pos + spec_enc_opt_uint(o).len()),
        r matches Some(p) ==> pos < p.1 <= bytes@.len(),
{
    let len = bytes.len();
    let r: Option<(Option<u64>, usize)>;
    if len - pos >= 1 && *slice_index_get(bytes, pos) == 0xc0 {
        r = Some((None, pos + 1));
    } else {
        match parse_uint(bytes, pos) {
            Some((n, np)) => {
                r = Some((Some(n), np));
            },
            None => {
                r = None;
            },
        }
    }
    proof {
        assert forall|o: Option<u64>|
            can_read(bytes@, pos as int, #[trigger] spec_enc_opt_uint(o)) implies (r matches Some(
            p,
        ) && p.0 == o && p.1 == pos + spec_enc_opt_uint(o).len()) by {
            let e = spec_enc_opt_uint(o);
            lemma_can_read_index(bytes@, pos as int, e);
            assert(bytes@[pos as int] == e[0]);
            match o {
                None => {},
                Some(n) => {
                    lemma_be_bytes_len(n as int, 1);
                    lemma_be_bytes_len(n as int, 2);
                    lemma_be_bytes_len(n as int, 4);
                    lemma_be_bytes_len(n as int, 8);
                    assert(e[0] != 0xc0);
                },
            }
        }
    }
    r
}

/// Read an array header; the element count follows.
fn parse_arr_header(bytes: &[u8], pos: usize) -> (r: Option<(u64, usize)>)
    requires
        pos <= bytes@.len(),
    ensures
        forall|m: int|
            0 <= m <= 0xffff_ffff && can_read(bytes@, pos as int, #[trigger] spec_arr_header(m))
                ==> (r matches Some(p) && p.0 == m && p.1 == pos + spec_arr_header(m).len()),
        r matches Some(p) ==> pos < p.1 <= bytes@.len() && p.0 <= 0xffff_ffff
            && spec_arr_hdr_form(bytes@.subrange(pos as int, p.1 as int), p.0 as int),
{
    let len = bytes.len();
    let r: Option<(u64, usize)>;
    if len - pos < 1 {
        r = None;
    } else {
        let b0 = *slice_index_get(bytes, pos);
        if 0x90 <= b0 && b0 <= 0x9f {
            r = Some(((b0 - 0x90) as u64, pos + 1));
        } else if b0 == 0xdc && len - pos >= 3 {
            r = Some((read_be(bytes, pos + 1, 2), pos + 3));
        } else if b0 == 0xdd && len - pos >= 5 {
            r = Some((read_be(bytes, pos + 1, 4), pos + 5));
        } else {
            r = None;
        }
    }
    proof {
        match r {
            Some(p) => {
                lemma_pow256_values();
                let e = bytes@.subrange(pos as int, p.1 as int);
                assert(e[0] == bytes@[pos as int]);
                if p.1 == pos + 3 {
                    lemma_be_val_bound(bytes@.subrange(pos + 1, pos + 3));
                    assert(e.subrange(1, 3) =~= bytes@.subrange(pos + 1, pos + 3));
                }
                if p.1 == pos + 5 {
                    lemma_be_val_bound(bytes@.subrange(pos + 1, pos + 5));
                    assert(e.subrange(1, 5) =~= bytes@.subrange(pos + 1, pos + 5));
                }
                assert(spec_arr_hdr_form(e, p.0 as int));
            },
            None => {},
        }
        assert forall|m: int|
            0 <= m <= 0xffff_ffff && can_read(
                bytes@,
                pos as int,
                #[trigger] spec_arr_header(m),
            ) implies (r matches Some(p) && p.0 == m && p.1 == pos + spec_arr_header(m).len()) by {
            let e = spec_arr_header(m);
            lemma_pow256_values();
            lemma_be_bytes_len(m, 2);
            lemma_be_bytes_len(m, 4);
            lemma_can_read_index(bytes@, pos as int, e);
            assert(bytes@[pos as int] == e[0]);
            if m < 16 {
            } else if m <= 0xffff {
                lemma_can_read_subrange(bytes@, pos as int, e, 1, e.len() as int);
                assert(e.subrange(1, e.len() as int) =~= spec_be_bytes(m, 2));
                lemma_be_val_be_bytes(m, 2);
            } else {
                lemma_can_read_subrange(bytes@, pos as int, e, 1, e.len() as int);
                assert(e.subrange(1, e.len() as int) =~= spec_be_bytes(m, 4));
                lemma_be_val_be_bytes(m, 4);
            }
        }
    }
    r
}

/// Read a map header; the pair count follows.
fn parse_map_header(bytes: &[u8], pos: usize) -> (r: Option<(u64, usize)>)
    requires
        pos <= bytes@.len(),
    ensures
        forall|m: int|
            0 <= m <= 0xffff_ffff && can_read(bytes@, pos as int, #[trigger] spec_map_header(m))
                ==> (r matches Some(p) && p.0 == m && p.1 == pos + spec_map_header(m).len()),
        r matches Some(p) ==> pos < p.1 <= bytes@.len() && p.0 <= 0xffff_ffff,
{
    let len = bytes.len();
    let r: Option<(u64, usize)>;
    if len - pos < 1 {
        r = None;
    } else {
        let b0 = *slice_index_get(bytes, pos);
        if 0x80 <= b0 && b0 <= 0x8f {
            r = Some(((b0 - 0x80) as u64, pos + 1));
        } else if b0 == 0xde && len - pos >= 3 {
            r = Some((read_be(bytes, pos + 1, 2), pos + 3));
        } else if b0 == 0xdf && len - pos >= 5 {
            r = Some((read_be(bytes, pos + 1, 4), pos + 5));
        } else {
            r = None;
        }
    }
    proof {
        match r {
            Some(p) => {
                lemma_pow256_values();
                if p.1 == pos + 3 {
                    lemma_be_val_bound(bytes@.subrange(pos + 1, pos + 3));
                }
                if p.1 == pos + 5 {
                    lemma_be_val_bound(bytes@.subrange(pos + 1, pos + 5));
                }
            },
            None => {},
        }
        assert forall|m: int|
            0 <= m <= 0xffff_ffff && can_read(
                bytes@,
                pos as int,
                #[trigger] spec_map_header(m),
            ) implies (r matches Some(p) && p.0 == m && p.1 == pos + spec_map_header(m).len()) by {
            let e = spec_map_header(m);
            lemma_pow256_values();
            lemma_be_bytes_len(m, 2);
            lemma_be_bytes_len(m, 4);
            lemma_can_read_index(bytes@, pos as int, e);
            assert(bytes@[pos as int] == e[0]);
            if m < 16 {
            } else if m <= 0xffff {
                lemma_can_read_subrange(bytes@, pos as int, e, 1, e.len() as int);
                assert(e.subrange(1, e.len() as int) =~= spec_be_bytes(m, 2));
                lemma_be_val_be_bytes(m, 2);
            } else {
                lemma_can_read_subrange(bytes@, pos as int, e, 1, e.len() as int);
                assert(e.subrange(1, e.len() as int) =~= spec_be_bytes(m, 4));
                lemma_be_val_be_bytes(m, 4);
            }
        }
    }
    r
}

// ---------------------------------------------------------------------------
// Composite decoders
// ---------------------------------------------------------------------------
proof fn lemma_str_arr_at(bytes: Seq<u8>, pos: int, ss: Seq<Seq<char>>, i: int, p1: int, cur: int)
    requires
        str_seq_encodable(ss),
        can_read(bytes, pos, spec_enc_str_arr(ss)),
        0 <= i < ss.len(),
        p1 == pos + spec_arr_header(ss.len() as int).len(),
        cur == p1 + spec_enc_str_seq(ss.take(i)).len(),
    ensures
        str_encodable(ss[i]),
        can_read(bytes, cur, spec_enc_str(ss[i])),
        spec_enc_str_seq(ss.take(i + 1)) == spec_enc_str_seq(ss.take(i)) + spec_enc_str(ss[i]),
{
    assert(ss.take(i + 1).drop_last() =~= ss.take(i));
    assert(spec_enc_str_seq(ss.take(i + 1)) == spec_enc_str_seq(ss.take(i)) + spec_enc_str(
        ss[i],
    ));
    assert(ss =~= ss.take(i + 1) + ss.skip(i + 1));
    lemma_enc_str_seq_concat(ss.take(i + 1), ss.skip(i + 1));
    lemma_can_read_concat(bytes, pos, spec_arr_header(ss.len() as int), spec_enc_str_seq(ss));
    assert(spec_enc_str_seq(ss) =~= spec_enc_str_seq(ss.take(i)) + (spec_enc_str(ss[i])
        + spec_enc_str_seq(ss.skip(i + 1))));
    lemma_can_read_concat(
        bytes,
        p1,
        spec_enc_str_seq(ss.take(i)),
        spec_enc_str(ss[i]) + spec_enc_str_seq(ss.skip(i + 1)),
    );
    lemma_can_read_concat(bytes, cur, spec_enc_str(ss[i]), spec_enc_str_seq(ss.skip(i + 1)));
}

/// Read an array of strings.  Whenever the bytes at `pos` hold the
/// encoding of an encodable string sequence, that sequence comes back.
fn parse_str_array(bytes: &[u8], pos: usize) -> (r: Option<(Vec<String>, usize)>)
    requires
        pos <= bytes@.len(),
    ensures
        forall|ss: Seq<Seq<char>>|
            str_seq_encodable(ss) && can_read(bytes@, pos as int, #[trigger] spec_enc_str_arr(ss))
                ==> (r matches Some(p) && spec_str_views(p.0@) == ss && p.1 == pos
                + spec_enc_str_arr(ss).len()),
        r matches Some(p) ==> pos < p.1 <= bytes@.len(),
{
    match parse_arr_header(bytes, pos) {
        None => {
            proof {
                assert forall|ss: Seq<Seq<char>>|
                    str_seq_encodable(ss) && can_read(
                        bytes@,
                        pos as int,
                        #[trigger] spec_enc_str_arr(ss),
                    ) implies false by {
                    lemma_can_read_concat(
                        bytes@,
                        pos as int,
                        spec_arr_header(ss.len() as int),
                        spec_enc_str_seq(ss),
                    );
                }
            }
            None
        },
        Some((count, p1)) => {
            let mut acc: Vec<String> = Vec::new();
            let mut cur: usize = p1;
            let mut i: u64 = 0;
            proof {
                assert forall|ss: Seq<Seq<char>>|
                    str_seq_encodable(ss) && can_read(
                        bytes@,
                        pos as int,
                        #[trigger] spec_enc_str_arr(ss),
                    ) implies (count == ss.len() && p1 == pos + spec_arr_header(
                    ss.len() as int,
                ).len() && spec_str_views(acc@) == ss.take(0) && cur == p1 + spec_enc_str_seq(
                    ss.take(0),
                ).len()) by {
                    lemma_can_read_concat(
                        bytes@,
                        pos as int,
                        spec_arr_header(ss.len() as int),
                        spec_enc_str_seq(ss),
                    );
                    assert(spec_str_views(acc@) =~= ss.take(0));
                    assert(spec_enc_str_seq(ss.take(0)) =~= Seq::<u8>::empty());
                }
            }
            while i < count
                invariant
                    pos <= p1 <= cur <= bytes@.len(),
                    i <= count,
                    acc@.len() == i,
                    forall|ss: Seq<Seq<char>>|
                        str_seq_encodable(ss) && can_read(
                            bytes@,
                            pos as int,
                            #[trigger] spec_enc_str_arr(ss),
                        ) ==> (count == ss.len() && p1 == pos + spec_arr_header(
                            ss.len() as int,
                        ).len() && spec_str_views(acc@) == ss.take(i as int) && cur == p1
                            + spec_enc_str_seq(ss.take(i as int)).len()),
                decreases count - i,
            {
                proof {
                    assert forall|ss: Seq<Seq<char>>|
                        str_seq_encodable(ss) && can_read(
                            bytes@,
                            pos as int,
                            #[trigger] spec_enc_str_arr(ss),
                        ) implies (i < ss.len() && str_encodable(ss[i as int]) && can_read(
                        bytes@,
                        cur as int,
                        spec_enc_str(ss[i as int]),
                    )) by {
                        lemma_str_arr_at(bytes@, pos as int, ss, i as int, p1 as int, cur as int);
                    }
                }
                match parse_str(bytes, cur) {
                    None => {
                        return None;
                    },
                    Some((s, np)) => {
                        acc.push(s);
                        proof {
                            assert forall|ss: Seq<Seq<char>>|
                                str_seq_encodable(ss) && can_read(
                                    bytes@,
                                    pos as int,
                                    #[trigger] spec_enc_str_arr(ss),
                                ) implies (spec_str_views(acc@) == ss.take(i + 1) && np == p1
                                + spec_enc_str_seq(ss.take(i + 1)).len()) by {
                                lemma_str_arr_at(
                                    bytes@,
                                    pos as int,
                                    ss,
                                    i as int,
                                    p1 as int,
                                    cur as int,
                                );
                                assert(spec_str_views(acc@) =~= ss.take(i + 1));
                            }
                        }
                        cur = np;
                        i = i + 1;
                    },
                }
            }
            proof {
                assert forall|ss: Seq<Seq<char>>|
                    str_seq_encodable(ss) && can_read(
                        bytes@,
                        pos as int,
                        #[trigger] spec_enc_str_arr(ss),
                    ) implies (spec_str_views(acc@) == ss && cur == pos + spec_enc_str_arr(
                    ss,
                ).len()) by {
                    assert(ss.take(ss.len() as int) =~= ss);
                }
            }
            Some((acc, cur))
        },
    }
}

proof fn lemma_pair_map_at(
    bytes: Seq<u8>,
    pos: int,
    ps: Seq<(Seq<char>, Seq<char>)>,
    i: int,
    p1: int,
    cur: int,
)
    requires
        pair_seq_encodable(ps),
        can_read(bytes, pos, spec_enc_map(ps)),
        0 <= i < ps.len(),
        p1 == pos + spec_map_header(ps.len() as int).len(),
        cur == p1 + spec_enc_pair_seq(ps.take(i)).len(),
    ensures
        pair_encodable(ps[i]),
        can_read(bytes, cur, spec_enc_str(ps[i].0)),
        can_read(bytes, cur + spec_enc_str(ps[i].0).len(), spec_enc_str(ps[i].1)),
        spec_enc_pair_seq(ps.take(i + 1)) == spec_enc_pair_seq(ps.take(i)) + spec_enc_str(
            ps[i].0,
        ) + spec_enc_str(ps[i].1),
{
    assert(ps.take(i + 1).drop_last() =~= ps.take(i));
    assert(spec_enc_pair_seq(ps.take(i + 1)) == spec_enc_pair_seq(ps.take(i)) + spec_enc_str(
        ps[i].0,
    ) + spec_enc_str(ps[i].1));
    assert(ps =~= ps.take(i + 1) + ps.skip(i + 1));
    lemma_enc_pair_seq_concat(ps.take(i + 1), ps.skip(i + 1));
    lemma_can_read_concat(bytes, pos, spec_map_header(ps.len() as int), spec_enc_pair_seq(ps));
    assert(spec_enc_pair_seq(ps) =~= spec_enc_pair_seq(ps.take(i)) + (spec_enc_str(ps[i].0) + (
    spec_enc_str(ps[i].1) + spec_enc_pair_seq(ps.skip(i + 1)))));
    lemma_can_read_concat(
        bytes,
        p1,
        spec_enc_pair_seq(ps.take(i)),
        spec_enc_str(ps[i].0) + (spec_enc_str(ps[i].1) + spec_enc_pair_seq(ps.skip(i + 1))),
    );
    lemma_can_read_concat(
        bytes,
        cur,
        spec_enc_str(ps[i].0),
        spec_enc_str(ps[i].1) + spec_enc_pair_seq(ps.skip(i + 1)),
    );
    lemma_can_read_concat(
        bytes,
        cur + spec_enc_str(ps[i].0).len(),
        spec_enc_str(ps[i].1),
        spec_enc_pair_seq(ps.skip(i + 1)),
    );
}

/// Read a map of string pairs.  Whenever the bytes at `pos` hold the
/// encoding of an encodable pair sequence, that sequence comes back, in
/// wire order.
fn parse_pair_map(bytes: &[u8], pos: usize) -> (r: Option<(Vec<(String, String)>, usize)>)
    requires
        pos <= bytes@.len(),
    ensures
        forall|ps: Seq<(Seq<char>, Seq<char>)>|
            pair_seq_encodable(ps) && can_read(bytes@, pos as int, #[trigger] spec_enc_map(ps))
                ==> (r matches Some(p) && spec_pair_views(p.0@) == ps && p.1 == pos + spec_enc_map(
                ps,
            ).len()),
        r matches Some(p) ==> pos < p.1 <= bytes@.len(),
{
    match parse_map_header(bytes, pos) {
        None => {
            proof {
                assert forall|ps: Seq<(Seq<char>, Seq<char>)>|
                    pair_seq_encodable(ps) && can_read(
                        bytes@,
                        pos as int,
                        #[trigger] spec_enc_map(ps),
                    ) implies false by {
                    lemma_can_read_concat(
                        bytes@,
                        pos as int,
                        spec_map_header(ps.len() as int),
                        spec_enc_pair_seq(ps),
                    );
                }
            }
            None
        },
        Some((count, p1)) => {
            let mut acc: Vec<(String, String)> = Vec::new();
            let mut cur: usize = p1;
            let mut i: u64 = 0;
            proof {
                assert forall|ps: Seq<(Seq<char>, Seq<char>)>|
                    pair_seq_encodable(ps) && can_read(
                        bytes@,
                        pos as int,
                        #[trigger] spec_enc_map(ps),
                    ) implies (count == ps.len() && p1 == pos + spec_map_header(
                    ps.len() as int,
                ).len() && spec_pair_views(acc@) == ps.take(0) && cur == p1 + spec_enc_pair_seq(
                    ps.take(0),
                ).len()) by {
                    lemma_can_read_concat(
                        bytes@,
                        pos as int,
                        spec_map_header(ps.len() as int),
                        spec_enc_pair_seq(ps),
                    );
                    assert(spec_pair_views(acc@) =~= ps.take(0));
                    assert(spec_enc_pair_seq(ps.take(0)) =~= Seq::<u8>::empty());
                }
            }
            while i < count
                invariant
                    pos <= p1 <= cur <= bytes@.len(),
                    i <= count,
                    acc@.len() == i,
                    forall|ps: Seq<(Seq<char>, Seq<char>)>|
                        pair_seq_encodable(ps) && can_read(
                            bytes@,
                            pos as int,
                            #[trigger] spec_enc_map(ps),
                        ) ==> (count == ps.len() && p1 == pos + spec_map_header(
                            ps.len() as int,
                        ).len() && spec_pair_views(acc@) == ps.take(i as int) && cur == p1
                            + spec_enc_pair_seq(ps.take(i as int)).len()),
                decreases count - i,
            {
                proof {
                    assert forall|ps: Seq<(Seq<char>, Seq<char>)>|
                        pair_seq_encodable(ps) && can_read(
                            bytes@,
                            pos as int,
                            #[trigger] spec_enc_map(ps),
                        ) implies (i < ps.len() && pair_encodable(ps[i as int]) && can_read(
                        bytes@,
                        cur as int,
                        spec_enc_str(ps[i as int].0),
                    ) && can_read(
                        bytes@,
                        cur + spec_enc_str(ps[i as int].0).len(),
                        spec_enc_str(ps[i as int].1),
                    )) by {
                        lemma_pair_map_at(bytes@, pos as int, ps, i as int, p1 as int, cur as int);
                    }
                }
                let key: String;
                let mid: usize;
                match parse_str(bytes, cur) {
                    None => {
                        return None;
                    },
                    Some((s, np)) => {
                        key = s;
                        mid = np;
                    },
                }
                match parse_str(bytes, mid) {
                    None => {
                        return None;
                    },
                    Some((s, np)) => {
                        acc.push((key, s));
                        proof {
                            assert forall|ps: Seq<(Seq<char>, Seq<char>)>|
                                pair_seq_encodable(ps) && can_read(
                                    bytes@,
                                    pos as int,
                                    #[trigger] spec_enc_map(ps),
                                ) implies (spec_pair_views(acc@) == ps.take(i + 1) && np == p1
                                + spec_enc_pair_seq(ps.take(i + 1)).len()) by {
                                lemma_pair_map_at(
                                    bytes@,
                                    pos as int,
                                    ps,
                                    i as int,
                                    p1 as int,
                                    cur as int,
                                );
                                assert(spec_pair_views(acc@) =~= ps.take(i + 1));
                            }
                        }
                        cur = np;
                        i = i + 1;
                    },
                }
            }
            proof {
                assert forall|ps: Seq<(Seq<char>, Seq<char>)>|
                    pair_seq_encodable(ps) && can_read(
                        bytes@,
                        pos as int,
                        #[trigger] spec_enc_map(ps),
                    ) implies (spec_pair_views(acc@) == ps && cur == pos + spec_enc_map(
                    ps,
                ).len()) by {
                    assert(ps.take(ps.len() as int) =~= ps);
                }
            }
            Some((acc, cur))
        },
    }
}

/// Step over one value of a scalar or string form, as an added optional
/// field of a future record version may use; nested containers are not
/// stepped over.  Whenever such a value stands at `pos`, the position
/// after it comes back, and a success certifies that such a value stood
/// there.
fn skip_value(bytes: &[u8], pos: usize) -> (r: Option<usize>)
    requires
        pos <= bytes@.len(),
    ensures
        forall|e: Seq<u8>|
            spec_skip_form(e) && #[trigger] can_read(bytes@, pos as int, e) ==> (r matches Some(np)
                && np == pos + e.len()),
        r matches Some(np) ==> pos < np <= bytes@.len() && spec_skip_form(
            bytes@.subrange(pos as int, np as int),
        ),
{
    let len = bytes.len();
    let r: Option<usize>;
    if len - pos < 1 {
        r = None;
    } else {
        let b0 = *slice_index_get(bytes, pos);
        if b0 <= 0x7f || b0 == 0xc0 || b0 == 0xc2 || b0 == 0xc3 {
            r = Some(pos + 1);
        } else if b0 == 0xcc || b0 == 0xcd || b0 == 0xce || b0 == 0xcf {
            let k: usize = if b0 == 0xcc {
                1
            } else if b0 == 0xcd {
                2
            } else if b0 == 0xce {
                4
            } else {
                8
            };
            if len - pos - 1 >= k {
                r = Some(pos + 1 + k);
            } else {
                r = None;
            }
        } else if 0xa0 <= b0 && b0 <= 0xbf {
            let blen = (b0 - 0xa0) as usize;
            if len - pos - 1 >= blen {
                r = Some(pos + 1 + blen);
            } else {
                r = None;
            }
        } else if b0 == 0xd9 && len - pos >= 2 {
            let blen = read_be(bytes, pos + 1, 1);
            if (len - pos - 2) as u64 >= blen {
                r = Some(pos + 2 + blen as usize);
            } else {
                r = None;
            }
        } else if b0 == 0xda && len - pos >= 3 {
            let blen = read_be(bytes, pos + 1, 2);
            if (len - pos - 3) as u64 >= blen {
                r = Some(pos + 3 + blen as usize);
            } else {
                r = None;
            }
        } else if b0 == 0xdb && len - pos >= 5 {
            let blen = read_be(bytes, pos + 1, 4);
            if (len - pos - 5) as u64 >= blen {
                r = Some(pos + 5 + blen as usize);
            } else {
                r = None;
            }
        } else {
            r = None;
        }
    }
    proof {
        match r {
            Some(np) => {
                let e = bytes@.subrange(pos as int, np as int);
                assert(e[0] == bytes@[pos as int]);
                if e[0] == 0xd9 && np >= pos + 2 {
                    assert(e.subrange(1, 2) =~= bytes@.subrange(pos + 1, pos + 2));
                }
                if e[0] == 0xda && np >= pos + 3 {
                    assert(e.subrange(1, 3) =~= bytes@.subrange(pos + 1, pos + 3));
                }
                if e[0] == 0xdb && np >= pos + 5 {
                    assert(e.subrange(1, 5) =~= bytes@.subrange(pos + 1, pos + 5));
                }
                assert(spec_skip_form(e));
            },
            None => {},
        }
        assert forall|e: Seq<u8>|
            spec_skip_form(e) && #[trigger] can_read(bytes@, pos as int, e) implies (r matches Some(
            np,
        ) && np == pos + e.len()) by {
            lemma_can_read_index(bytes@, pos as int, e);
            assert(bytes@[pos as int] == e[0]);
            if e.len() >= 2 && e[0] == 0xd9 {
                lemma_can_read_subrange(bytes@, pos as int, e, 1, 2);
            }
            if e.len() >= 3 && e[0] == 0xda {
                lemma_can_read_subrange(bytes@, pos as int, e, 1, 3);
            }
            if e.len() >= 5 && e[0] == 0xdb {
                lemma_can_read_subrange(bytes@, pos as int, e, 1, 5);
            }
        }
    }
    r
}

// ---------------------------------------------------------------------------
// Record decoders
// ---------------------------------------------------------------------------
/// Field-by-field equality of two requests, by the fields' views.
pub open spec fn request_views_eq(a: &IpcRequest, b: &IpcRequest) -> bool {
    &&& a.method@ == b.method@
    &&& spec_str_views(a.params@) == spec_str_views(b.params@)
    &&& spec_pair_views(a.context@) == spec_pair_views(b.context@)
    &&& spec_opt_view(a.request_id) == spec_opt_view(b.request_id)
    &&& a.timeout_ms == b.timeout_ms
}

/// Field-by-field equality of two responses, by the fields' views.
pub open spec fn response_views_eq(a: &IpcResponse, b: &IpcResponse) -> bool {
    &&& a.success == b.success
    &&& a.result@ == b.result@
    &&& a.duration_us == b.duration_us
    &&& a.cached == b.cached
    &&& spec_opt_view(a.request_id) == spec_opt_view(b.request_id)
    &&& spec_opt_view(a.error) == spec_opt_view(b.error)
}

spec fn req_off1(v: &IpcRequest) -> int {
    spec_arr_header(5).len() as int
}

spec fn req_off2(v: &IpcRequest) -> int {
    req_off1(v) + spec_enc_str(v.method@).len()
}

spec fn req_off3(v: &IpcRequest) -> int {
    req_off2(v) + spec_enc_str_arr(spec_str_views(v.params@)).len()
}

spec fn req_off4(v: &IpcRequest) -> int {
    req_off3(v) + spec_enc_map(spec_pair_views(v.context@)).len()
}

spec fn req_off5(v: &IpcRequest) -> int {
    req_off4(v) + spec_enc_opt_str(spec_opt_view(v.request_id)).len()
}

#[verifier::rlimit(60)]
proof fn lemma_request_parts(bytes: Seq<u8>, v: &IpcRequest)
    requires
        bytes == spec_enc_request(v),
    ensures
        can_read(bytes, 0, spec_arr_header(5)),
        can_read(bytes, req_off1(v), spec_enc_str(v.method@)),
        can_read(bytes, req_off2(v), spec_enc_str_arr(spec_str_views(v.params@))),
        can_read(bytes, req_off3(v), spec_enc_map(spec_pair_views(v.context@))),
        can_read(bytes, req_off4(v), spec_enc_opt_str(spec_opt_view(v.request_id))),
        can_read(bytes, req_off5(v), spec_enc_opt_uint(v.timeout_ms)),
        bytes.len() == req_off5(v) + spec_enc_opt_uint(v.timeout_ms).len(),
{
    let e1 = spec_arr_header(5);
    let e2 = spec_enc_str(v.method@);
    let e3 = spec_enc_str_arr(spec_str_views(v.params@));
    let e4 = spec_enc_map(spec_pair_views(v.context@));
    let e5 = spec_enc_opt_str(spec_opt_view(v.request_id));
    let e6 = spec_enc_opt_uint(v.timeout_ms);
    assert(bytes =~= e1 + (e2 + (e3 + (e4 + (e5 + e6)))));
    assert(bytes.subrange(0, bytes.len() as int) =~= bytes);
    assert(can_read(bytes, 0, e1 + (e2 + (e3 + (e4 + (e5 + e6))))));
    lemma_can_read_concat(bytes, 0, e1, e2 + (e3 + (e4 + (e5 + e6))));
    lemma_can_read_concat(bytes, e1.len() as int, e2, e3 + (e4 + (e5 + e6)));
    lemma_can_read_concat(bytes, (e1.len() + e2.len()) as int, e3, e4 + (e5 + e6));
    lemma_can_read_concat(bytes, (e1.len() + e2.len() + e3.len()) as int, e4, e5 + e6);
    lemma_can_read_concat(bytes, (e1.len() + e2.len() + e3.len() + e4.len()) as int, e5, e6);
}

/// The wire form of a response record to which unknown fields of scalar
/// or string form were appended: the header counts them, the six fields
/// stand unchanged, the extras follow.
pub open spec fn spec_enc_response_ext(r: &IpcResponse, xs: Seq<Seq<u8>>) -> Seq<u8> {
    spec_arr_header(6 + xs.len() as int) + spec_enc_bool(r.success) + spec_enc_str(r.result@)
        + spec_enc_uint(r.duration_us) + spec_enc_bool(r.cached) + spec_enc_opt_str(
        spec_opt_view(r.request_id),
    ) + spec_enc_opt_str(spec_opt_view(r.error)) + spec_cat_bytes(xs)
}

spec fn resp_offx1(xs: Seq<Seq<u8>>) -> int {
    spec_arr_header(6 + xs.len() as int).len() as int
}

spec fn resp_offx2(v: &IpcResponse, xs: Seq<Seq<u8>>) -> int {
    resp_offx1(xs) + spec_enc_bool(v.success).len()
}

spec fn resp_offx3(v: &IpcResponse, xs: Seq<Seq<u8>>) -> int {
    resp_offx2(v, xs) + spec_enc_str(v.result@).len()
}

spec fn resp_offx4(v: &IpcResponse, xs: Seq<Seq<u8>>) -> int {
    resp_offx3(v, xs) + spec_enc_uint(v.duration_us).len()
}

spec fn resp_offx5(v: &IpcResponse, xs: Seq<Seq<u8>>) -> int {
    resp_offx4(v, xs) + spec_enc_bool(v.cached).len()
}

spec fn resp_offx6(v: &IpcResponse, xs: Seq<Seq<u8>>) -> int {
    resp_offx5(v, xs) + spec_enc_opt_str(spec_opt_view(v.request_id)).len()
}

spec fn resp_offx7(v: &IpcResponse, xs: Seq<Seq<u8>>) -> int {
    resp_offx6(v, xs) + spec_enc_opt_str(spec_opt_view(v.error)).len()
}

#[verifier::rlimit(100)]
proof fn lemma_response_parts_ext(bytes: Seq<u8>, v: &IpcResponse, xs: Seq<Seq<u8>>)
    requires
        bytes == spec_enc_response_ext(v, xs),
    ensures
        can_read(bytes, 0, spec_arr_header(6 + xs.len() as int)),
        can_read(bytes, resp_offx1(xs), spec_enc_bool(v.success)),
        can_read(bytes, resp_offx2(v, xs), spec_enc_str(v.result@)),
        can_read(bytes, resp_offx3(v, xs), spec_enc_uint(v.duration_us)),
        can_read(bytes, resp_offx4(v, xs), spec_enc_bool(v.cached)),
        can_read(bytes, resp_offx5(v, xs), spec_enc_opt_str(spec_opt_view(v.request_id))),
        can_read(bytes, resp_offx6(v, xs), spec_enc_opt_str(spec_opt_view(v.error))),
        can_read(bytes, resp_offx7(v, xs), spec_cat_bytes(xs)),
        bytes.len() == resp_offx7(v, xs) + spec_cat_bytes(xs).len(),
{
    let e1 = spec_arr_header(6 + xs.len() as int);
    let e2 = spec_enc_bool(v.success);
    let e3 = spec_enc_str(v.result@);
    let e4 = spec_enc_uint(v.duration_us);
    let e5 = spec_enc_bool(v.cached);
    let e6 = spec_enc_opt_str(spec_opt_view(v.request_id));
    let e7 = spec_enc_opt_str(spec_opt_view(v.error));
    let e8 = spec_cat_bytes(xs);
    assert(bytes =~= e1 + (e2 + (e3 + (e4 + (e5 + (e6 + (e7 + e8)))))));
    assert(bytes.subrange(0, bytes.len() as int) =~= bytes);
    assert(can_read(bytes, 0, e1 + (e2 + (e3 + (e4 + (e5 + (e6 + (e7 + e8))))))));
    lemma_can_read_concat(bytes, 0, e1, e2 + (e3 + (e4 + (e5 + (e6 + (e7 + e8))))));
    lemma_can_read_concat(bytes, e1.len() as int, e2, e3 + (e4 + (e5 + (e6 + (e7 + e8)))));
    lemma_can_read_concat(bytes, (e1.len() + e2.len()) as int, e3, e4 + (e5 + (e6 + (e7 + e8))));
    lemma_can_read_concat(
        bytes,
        (e1.len() + e2.len() + e3.len()) as int,
        e4,
        e5 + (e6 + (e7 + e8)),
    );
    lemma_can_read_concat(
        bytes,
        (e1.len() + e2.len() + e3.len() + e4.len()) as int,
        e5,
        e6 + (e7 + e8),
    );
    lemma_can_read_concat(
        bytes,
        (e1.len() + e2.len() + e3.len() + e4.len() + e5.len()) as int,
        e6,
        e7 + e8,
    );
    lemma_can_read_concat(
        bytes,
        (e1.len() + e2.len() + e3.len() + e4.len() + e5.len() + e6.len()) as int,
        e7,
        e8,
    );
}

proof fn lemma_response_ext_empty(v: &IpcResponse)
    ensures
        spec_enc_response_ext(v, Seq::<Seq<u8>>::empty()) == spec_enc_response(v),
        spec_skip_forms(Seq::<Seq<u8>>::empty()),
{
    assert(spec_cat_bytes(Seq::<Seq<u8>>::empty()) =~= Seq::<u8>::empty());
    assert(spec_enc_response_ext(v, Seq::<Seq<u8>>::empty()) =~= spec_enc_response(v));
}

/// An accepted response image: an array header announcing at least the
/// six fields, the six field images in order, then the announced number
/// of extra skip-form values, ending exactly at the payload's end.
pub open spec fn spec_response_image(bytes: Seq<u8>, w: &IpcResponse) -> bool {
    exists|m: int, q1: int, q2: int, q3: int, q4: int, q5: int, q6: int, q7: int|
        #![trigger
            bytes.subrange(0, q1),
            bytes.subrange(q1, q2),
            bytes.subrange(q2, q3),
            bytes.subrange(q3, q4),
            bytes.subrange(q4, q5),
            bytes.subrange(q5, q6),
            bytes.subrange(q6, q7),
            spec_skip_chain(bytes.subrange(q7, bytes.len() as int), (m - 6) as nat)
        ]
        {
            &&& 0 <= q1 <= q2 <= q3 <= q4 <= q5 <= q6 <= q7 <= bytes.len()
            &&& 6 <= m <= 0xffff_ffff
            &&& spec_arr_hdr_form(bytes.subrange(0, q1), m)
            &&& bytes.subrange(q1, q2) == spec_enc_bool(w.success)
            &&& spec_str_form(bytes.subrange(q2, q3), w.result@)
            &&& spec_uint_form(bytes.subrange(q3, q4), w.duration_us)
            &&& bytes.subrange(q4, q5) == spec_enc_bool(w.cached)
            &&& spec_opt_str_form(bytes.subrange(q5, q6), spec_opt_view(w.request_id))
            &&& spec_opt_str_form(bytes.subrange(q6, q7), spec_opt_view(w.error))
            &&& spec_skip_chain(bytes.subrange(q7, bytes.len() as int), (m - 6) as nat)
        }
}

proof fn lemma_response_image_intro(
    bytes: Seq<u8>,
    w: &IpcResponse,
    m: int,
    q1: int,
    q2: int,
    q3: int,
    q4: int,
    q5: int,
    q6: int,
    q7: int,
)
    requires
        0 <= q1 <= q2 <= q3 <= q4 <= q5 <= q6 <= q7 <= bytes.len(),
        6 <= m <= 0xffff_ffff,
        spec_arr_hdr_form(bytes.subrange(0, q1), m),
        bytes.subrange(q1, q2) == spec_enc_bool(w.success),
        spec_str_form(bytes.subrange(q2, q3), w.result@),
        spec_uint_form(bytes.subrange(q3, q4), w.duration_us),
        bytes.subrange(q4, q5) == spec_enc_bool(w.cached),
        spec_opt_str_form(bytes.subrange(q5, q6), spec_opt_view(w.request_id)),
        spec_opt_str_form(bytes.subrange(q6, q7), spec_opt_view(w.error)),
        spec_skip_chain(bytes.subrange(q7, bytes.len() as int), (m - 6) as nat),
    ensures
        spec_response_image(bytes, w),
{
}

/// Step over the `count - 6` appended values of a response record with
/// unknown added fields, starting at `start`.
fn skip_extras(bytes: &[u8], start: usize, count: u64) -> (r: Option<usize>)
    requires
        6 <= count,
        start <= bytes@.len(),
        forall|v: IpcResponse|
            response_encodable(&v) && bytes@ == #[trigger] spec_enc_response(&v) ==> (count == 6
                && start == bytes@.len()),
        forall|v: IpcResponse, xs: Seq<Seq<u8>>|
            response_encodable(&v) && xs.len() + 6 <= 0xffff_ffff && spec_skip_forms(xs)
                && bytes@ == #[trigger] spec_enc_response_ext(&v, xs) ==> (count == 6 + xs.len()
                && start == resp_offx7(&v, xs)),
    ensures
        forall|v: IpcResponse|
            response_encodable(&v) && bytes@ == #[trigger] spec_enc_response(&v) ==> (r matches Some(
                np,
            ) && np == bytes@.len()),
        forall|v: IpcResponse, xs: Seq<Seq<u8>>|
            response_encodable(&v) && xs.len() + 6 <= 0xffff_ffff && spec_skip_forms(xs)
                && bytes@ == #[trigger] spec_enc_response_ext(&v, xs) ==> (r matches Some(np) && np
                == bytes@.len()),
        r matches Some(np) ==> start <= np <= bytes@.len() && spec_skip_chain(
            bytes@.subrange(start as int, np as int),
            (count - 6) as nat,
        ),
{
    let mut extra: u64 = count - 6;
    let mut posx: usize = start;
    proof {
        assert(bytes@.subrange(start as int, start as int) =~= Seq::<u8>::empty());
        assert forall|v: IpcResponse, xs: Seq<Seq<u8>>|
            response_encodable(&v) && xs.len() + 6 <= 0xffff_ffff && spec_skip_forms(xs)
                && bytes@ == #[trigger] spec_enc_response_ext(&v, xs) implies posx == resp_offx7(
            &v,
            xs,
        ) + spec_cat_bytes(xs.take(0)).len() by {
            assert(spec_cat_bytes(xs.take(0)) =~= Seq::<u8>::empty());
        }
    }
    while extra > 0
        invariant
            start <= posx <= bytes@.len(),
            6 <= count,
            extra <= count - 6,
            count == 6 ==> (extra == 0 && posx == start),
            spec_skip_chain(bytes@.subrange(start as int, posx as int), (count - 6 - extra) as nat),
            forall|v: IpcResponse|
                response_encodable(&v) && bytes@ == #[trigger] spec_enc_response(&v) ==> (count
                    == 6 && start == bytes@.len()),
            forall|v: IpcResponse, xs: Seq<Seq<u8>>|
                response_encodable(&v) && xs.len() + 6 <= 0xffff_ffff && spec_skip_forms(xs)
                    && bytes@ == #[trigger] spec_enc_response_ext(&v, xs) ==> (count == 6
                    + xs.len() && start == resp_offx7(&v, xs) && extra <= xs.len() && posx
                    == resp_offx7(&v, xs) + spec_cat_bytes(xs.take(xs.len() - extra)).len()),
        decreases extra,
    {
        match skip_value(bytes, posx) {
            None => {
                proof {
                    assert forall|v: IpcResponse, xs: Seq<Seq<u8>>|
                        response_encodable(&v) && xs.len() + 6 <= 0xffff_ffff && spec_skip_forms(
                            xs,
                        ) && bytes@ == #[trigger] spec_enc_response_ext(&v, xs) implies false by {
                        lemma_response_parts_ext(bytes@, &v, xs);
                        lemma_skip_cat_at(
                            bytes@,
                            resp_offx7(&v, xs),
                            xs,
                            xs.len() - extra,
                            posx as int,
                        );
                    }
                }
                return None;
            },
            Some(np) => {
                proof {
                    lemma_skip_chain_snoc(
                        bytes@,
                        start as int,
                        posx as int,
                        np as int,
                        (count - 6 - extra) as nat,
                    );
                    assert forall|v: IpcResponse, xs: Seq<Seq<u8>>|
                        response_encodable(&v) && xs.len() + 6 <= 0xffff_ffff && spec_skip_forms(
                            xs,
                        ) && bytes@ == #[trigger] spec_enc_response_ext(&v, xs) implies np
                        == resp_offx7(&v, xs) + spec_cat_bytes(xs.take(xs.len() - extra + 1)).len() by {
                        lemma_response_parts_ext(bytes@, &v, xs);
                        lemma_skip_cat_at(
                            bytes@,
                            resp_offx7(&v, xs),
                            xs,
                            xs.len() - extra,
                            posx as int,
                        );
                    }
                }
                posx = np;
            },
        }
        extra = extra - 1;
    }
    proof {
        assert forall|v: IpcResponse, xs: Seq<Seq<u8>>|
            response_encodable(&v) && xs.len() + 6 <= 0xffff_ffff && spec_skip_forms(xs)
                && bytes@ == #[trigger] spec_enc_response_ext(&v, xs) implies posx
            == bytes@.len() by {
            lemma_response_parts_ext(bytes@, &v, xs);
            assert(xs.take(xs.len() as int) =~= xs);
        }
    }
    Some(posx)
}

/// Read the array header and the six fields of a response record.  On
/// success the record comes back with the announced field count and the
/// seven positions after the header and after each field; the success
/// certifies the accepted images standing at those positions.
#[verifier::rlimit(100)]
fn parse_response_fields(bytes: &[u8]) -> (r: Option<
    (IpcResponse, u64, usize, usize, usize, usize, usize, usize, usize),
>)
    ensures
        forall|v: IpcResponse, xs: Seq<Seq<u8>>|
            response_encodable(&v) && xs.len() + 6 <= 0xffff_ffff && spec_skip_forms(xs)
                && bytes@ == #[trigger] spec_enc_response_ext(&v, xs) ==> (r matches Some(t)
                && response_views_eq(&t.0, &v) && t.1 == 6 + xs.len() && t.8 == resp_offx7(
                &v,
                xs,
            )),
        r matches Some(t) ==> ({
            &&& 6 <= t.1 <= 0xffff_ffff
            &&& 0 < t.2 <= t.3 <= t.4 <= t.5 <= t.6 <= t.7 <= t.8 <= bytes@.len()
            &&& spec_arr_hdr_form(bytes@.subrange(0, t.2 as int), t.1 as int)
            &&& bytes@.subrange(t.2 as int, t.3 as int) == spec_enc_bool(t.0.success)
            &&& spec_str_form(bytes@.subrange(t.3 as int, t.4 as int), t.0.result@)
            &&& spec_uint_form(bytes@.subrange(t.4 as int, t.5 as int), t.0.duration_us)
            &&& bytes@.subrange(t.5 as int, t.6 as int) == spec_enc_bool(t.0.cached)
            &&& spec_opt_str_form(
                bytes@.subrange(t.6 as int, t.7 as int),
                spec_opt_view(t.0.request_id),
            )
            &&& spec_opt_str_form(
                bytes@.subrange(t.7 as int, t.8 as int),
                spec_opt_view(t.0.error),
            )
        }),
{
    let count: u64;
    let p1: usize;
    match parse_arr_header(bytes, 0) {
        None => {
            proof {
                assert forall|v: IpcResponse, xs: Seq<Seq<u8>>|
                    response_encodable(&v) && xs.len() + 6 <= 0xffff_ffff && spec_skip_forms(xs)
                        && bytes@ == #[trigger] spec_enc_response_ext(&v, xs) implies false by {
                    lemma_response_parts_ext(bytes@, &v, xs);
                }
            }
            return None;
        },
        Some((c, p)) => {
            count = c;
            p1 = p;
        },
    }
    if count < 6 {
        proof {
            assert forall|v: IpcResponse, xs: Seq<Seq<u8>>|
                response_encodable(&v) && xs.len() + 6 <= 0xffff_ffff && spec_skip_forms(xs)
                    && bytes@ == #[trigger] spec_enc_response_ext(&v, xs) implies false by {
                lemma_response_parts_ext(bytes@, &v, xs);
            }
        }
        return None;
    }
    let success: bool;
    let p2: usize;
    match parse_bool(bytes, p1) {
        None => {
            proof {
                assert forall|v: IpcResponse, xs: Seq<Seq<u8>>|
                    response_encodable(&v) && xs.len() + 6 <= 0xffff_ffff && spec_skip_forms(xs)
                        && bytes@ == #[trigger] spec_enc_response_ext(&v, xs) implies false by {
                    lemma_response_parts_ext(bytes@, &v, xs);
                }
            }
            return None;
        },
        Some((b, p)) => {
            success = b;
            p2 = p;
        },
    }
    let result: String;
    let p3: usize;
    match parse_str(bytes, p2) {
        None => {
            proof {
                assert forall|v: IpcResponse, xs: Seq<Seq<u8>>|
                    response_encodable(&v) && xs.len() + 6 <= 0xffff_ffff && spec_skip_forms(xs)
                        && bytes@ == #[trigger] spec_enc_response_ext(&v, xs) implies false by {
                    lemma_response_parts_ext(bytes@, &v, xs);
                }
            }
            return None;
        },
        Some((s, p)) => {
            result = s;
            p3 = p;
        },
    }
    let duration_us: u64;
    let p4: usize;
    match parse_uint(bytes, p3) {
        None => {
            proof {
                assert forall|v: IpcResponse, xs: Seq<Seq<u8>>|
                    response_encodable(&v) && xs.len() + 6 <= 0xffff_ffff && spec_skip_forms(xs)
                        && bytes@ == #[trigger] spec_enc_response_ext(&v, xs) implies false by {
                    lemma_response_parts_ext(bytes@, &v, xs);
                }
            }
            return None;
        },
        Some((n, p)) => {
            duration_us = n;
            p4 = p;
        },
    }
    let cached: bool;
    let p5: usize;
    match parse_bool(bytes, p4) {
        None => {
            proof {
                assert forall|v: IpcResponse, xs: Seq<Seq<u8>>|
                    response_encodable(&v) && xs.len() + 6 <= 0xffff_ffff && spec_skip_forms(xs)
                        && bytes@ == #[trigger] spec_enc_response_ext(&v, xs) implies false by {
                    lemma_response_parts_ext(bytes@, &v, xs);
                }
            }
            return None;
        },
        Some((b, p)) => {
            cached = b;
            p5 = p;
        },
    }
    let request_id: Option<String>;
    let p6: usize;
    match parse_opt_str(bytes, p5) {
        None => {
            proof {
                assert forall|v: IpcResponse, xs: Seq<Seq<u8>>|
                    response_encodable(&v) && xs.len() + 6 <= 0xffff_ffff && spec_skip_forms(xs)
                        && bytes@ == #[trigger] spec_enc_response_ext(&v, xs) implies false by {
                    lemma_response_parts_ext(bytes@, &v, xs);
                }
            }
            return None;
        },
        Some((o, p)) => {
            request_id = o;
            p6 = p;
        },
    }
    let error: Option<String>;
    let p7: usize;
    match parse_opt_str(bytes, p6) {
        None => {
            proof {
                assert forall|v: IpcResponse, xs: Seq<Seq<u8>>|
                    response_encodable(&v) && xs.len() + 6 <= 0xffff_ffff && spec_skip_forms(xs)
                        && bytes@ == #[trigger] spec_enc_response_ext(&v, xs) implies false by {
                    lemma_response_parts_ext(bytes@, &v, xs);
                }
            }
            return None;
        },
        Some((o, p)) => {
            error = o;
            p7 = p;
        },
    }
    proof {
        assert forall|v: IpcResponse, xs: Seq<Seq<u8>>|
            response_encodable(&v) && xs.len() + 6 <= 0xffff_ffff && spec_skip_forms(xs)
                && bytes@ == #[trigger] spec_enc_response_ext(&v, xs) implies (count == 6
            + xs.len() && p7 == resp_offx7(&v, xs) && response_views_eq(
            &IpcResponse { success, result, duration_us, cached, request_id, error },
            &v,
        )) by {
            lemma_response_parts_ext(bytes@, &v, xs);
        }
    }
    Some((IpcResponse { success, result, duration_us, cached, request_id, error }, count, p1, p2, p3, p4, p5, p6, p7))
}

/// Decode a response from the complete payload of one frame.
///
/// Together with [`encode_response`] this states the round trip: for
/// every response whose fields fit the format, decoding its exact wire
/// form — or that wire form with unknown added fields of scalar or
/// string form appended and counted in the header — yields a response
/// equal to it in every field.  Every success certifies that the payload
/// is an accepted response image; everything else is refused as a
/// deserialization failure.
#[verifier::rlimit(100)]
pub fn decode_response(bytes: &[u8]) -> (r: Result<IpcResponse, OpenCliError>)
    ensures
        forall|v: IpcResponse|
            response_encodable(&v) && bytes@ == #[trigger] spec_enc_response(&v) ==> (r matches Ok(
                w,
            ) && response_views_eq(&w, &v)),
        forall|v: IpcResponse, xs: Seq<Seq<u8>>|
            response_encodable(&v) && xs.len() + 6 <= 0xffff_ffff && spec_skip_forms(xs)
                && bytes@ == #[trigger] spec_enc_response_ext(&v, xs) ==> (r matches Ok(w)
                && response_views_eq(&w, &v)),
        r matches Ok(w) ==> spec_response_image(bytes@, &w),
        r matches Err(e) ==> e is DeserializationError,
{
    let fields: (IpcResponse, u64, usize, usize, usize, usize, usize, usize, usize);
    match parse_response_fields(bytes) {
        None => {
            proof {
                assert forall|v: IpcResponse|
                    response_encodable(&v) && bytes@ == #[trigger] spec_enc_response(
                        &v,
                    ) implies false by {
                    lemma_response_ext_empty(&v);
                }
            }
            return Err(
                OpenCliError::DeserializationError(String::from_str("malformed response record")),
            );
        },
        Some(t) => {
            fields = t;
        },
    }
    let count: u64 = fields.1;
    let p1: usize = fields.2;
    let p2: usize = fields.3;
    let p3: usize = fields.4;
    let p4: usize = fields.5;
    let p5: usize = fields.6;
    let p6: usize = fields.7;
    let p7: usize = fields.8;
    proof {
        assert forall|v: IpcResponse|
            response_encodable(&v) && bytes@ == #[trigger] spec_enc_response(&v) implies (count
            == 6 && p7 == bytes@.len() && response_views_eq(&fields.0, &v)) by {
            lemma_response_ext_empty(&v);
            lemma_response_parts_ext(bytes@, &v, Seq::<Seq<u8>>::empty());
        }
    }
    let posx: usize;
    match skip_extras(bytes, p7, count) {
        None => {
            return Err(
                OpenCliError::DeserializationError(
                    String::from_str("unsupported extra field in response record"),
                ),
            );
        },
        Some(np) => {
            posx = np;
        },
    }
    if posx != bytes.len() {
        return Err(
            OpenCliError::DeserializationError(
                String::from_str("trailing bytes after response record"),
            ),
        );
    }
    let w = fields.0;
    proof {
        lemma_response_image_intro(
            bytes@,
            &w,
            count as int,
            p1 as int,
            p2 as int,
            p3 as int,
            p4 as int,
            p5 as int,
            p6 as int,
            p7 as int,
        );
    }
    Ok(w)
}

/// Decode a request from the complete payload of one frame.
///
/// Together with [`encode_request`] this states the round trip: for every
/// request whose fields fit the format, decoding its exact wire form
/// yields a request equal to it in every field.  The contract speaks of
/// that exact form alone; the body also steps over added trailing fields
/// of scalar or string form, as the daemon-side stub of the tests does
/// not need and the client never decodes requests on the wire.
pub fn decode_request(bytes: &[u8]) -> (r: Result<IpcRequest, OpenCliError>)
    ensures
        forall|v: IpcRequest|
            request_encodable(&v) && bytes@ == #[trigger] spec_enc_request(&v) ==> (r matches Ok(w)
                && request_views_eq(&w, &v)),
        r matches Err(e) ==> e is DeserializationError,
{
    let count: u64;
    let p1: usize;
    match parse_arr_header(bytes, 0) {
        None => {
            proof {
                assert forall|v: IpcRequest|
                    request_encodable(&v) && bytes@ == #[trigger] spec_enc_request(
                        &v,
                    ) implies false by {
                    lemma_request_parts(bytes@, &v);
                }
            }
            return Err(
                OpenCliError::DeserializationError(String::from_str("malformed request record")),
            );
        },
        Some((c, p)) => {
            count = c;
            p1 = p;
        },
    }
    if count < 5 {
        proof {
            assert forall|v: IpcRequest|
                request_encodable(&v) && bytes@ == #[trigger] spec_enc_request(
                    &v,
                ) implies false by {
                lemma_request_parts(bytes@, &v);
            }
        }
        return Err(
            OpenCliError::DeserializationError(String::from_str("request record is too short")),
        );
    }
    let method: String;
    let p2: usize;
    match parse_str(bytes, p1) {
        None => {
            proof {
                assert forall|v: IpcRequest|
                    request_encodable(&v) && bytes@ == #[trigger] spec_enc_request(
                        &v,
                    ) implies false by {
                    lemma_request_parts(bytes@, &v);
                }
            }
            return Err(
                OpenCliError::DeserializationError(String::from_str("malformed request record")),
            );
        },
        Some((s, p)) => {
            method = s;
            p2 = p;
        },
    }
    let params: Vec<String>;
    let p3: usize;
    match parse_str_array(bytes, p2) {
        None => {
            proof {
                assert forall|v: IpcRequest|
                    request_encodable(&v) && bytes@ == #[trigger] spec_enc_request(
                        &v,
                    ) implies false by {
                    lemma_request_parts(bytes@, &v);
                }
            }
            return Err(
                OpenCliError::DeserializationError(String::from_str("malformed request record")),
            );
        },
        Some((vs, p)) => {
            params = vs;
            p3 = p;
        },
    }
    let context: Vec<(String, String)>;
    let p4: usize;
    match parse_pair_map(bytes, p3) {
        None => {
            proof {
                assert forall|v: IpcRequest|
                    request_encodable(&v) && bytes@ == #[trigger] spec_enc_request(
                        &v,
                    ) implies false by {
                    lemma_request_parts(bytes@, &v);
                }
            }
            return Err(
                OpenCliError::DeserializationError(String::from_str("malformed request record")),
            );
        },
        Some((m, p)) => {
            context = m;
            p4 = p;
        },
    }
    let request_id: Option<String>;
    let p5: usize;
    match parse_opt_str(bytes, p4) {
        None => {
            proof {
                assert forall|v: IpcRequest|
                    request_encodable(&v) && bytes@ == #[trigger] spec_enc_request(
                        &v,
                    ) implies false by {
                    lemma_request_parts(bytes@, &v);
                }
            }
            return Err(
                OpenCliError::DeserializationError(String::from_str("malformed request record")),
            );
        },
        Some((o, p)) => {
            request_id = o;
            p5 = p;
        },
    }
    let timeout_ms: Option<u64>;
    let p6: usize;
    match parse_opt_uint(bytes, p5) {
        None => {
            proof {
                assert forall|v: IpcRequest|
                    request_encodable(&v) && bytes@ == #[trigger] spec_enc_request(
                        &v,
                    ) implies false by {
                    lemma_request_parts(bytes@, &v);
                }
            }
            return Err(
                OpenCliError::DeserializationError(String::from_str("malformed request record")),
            );
        },
        Some((o, p)) => {
            timeout_ms = o;
            p6 = p;
        },
    }
    let mut extra: u64 = count - 5;
    let mut posx: usize = p6;
    proof {
        assert forall|v: IpcRequest|
            request_encodable(&v) && bytes@ == #[trigger] spec_enc_request(&v) implies count
            == 5 by {
            lemma_request_parts(bytes@, &v);
        }
    }
    while extra > 0
        invariant
            posx <= bytes@.len(),
            count == 5 ==> (extra == 0 && posx == p6),
            forall|v: IpcRequest|
                request_encodable(&v) && bytes@ == #[trigger] spec_enc_request(&v) ==> count == 5,
        decreases extra,
    {
        match skip_value(bytes, posx) {
            None => {
                return Err(
                    OpenCliError::DeserializationError(
                        String::from_str("unsupported extra field in request record"),
                    ),
                );
            },
            Some(np) => {
                posx = np;
            },
        }
        extra = extra - 1;
    }
    if posx != bytes.len() {
        proof {
            assert forall|v: IpcRequest|
                request_encodable(&v) && bytes@ == #[trigger] spec_enc_request(
                    &v,
                ) implies false by {
                lemma_request_parts(bytes@, &v);
            }
        }
        return Err(
            OpenCliError::DeserializationError(
                String::from_str("trailing bytes after request record"),
            ),
        );
    }
    let w = IpcRequest { method, params, context, request_id, timeout_ms };
    proof {
        assert forall|v: IpcRequest|
            request_encodable(&v) && bytes@ == #[trigger] spec_enc_request(
                &v,
            ) implies request_views_eq(&w, &v) by {
            lemma_request_parts(bytes@, &v);
        }
    }
    Ok(w)
}

} // verus!
