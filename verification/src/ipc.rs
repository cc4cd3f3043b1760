//! The request/response data model and the client-side protocol decisions:
//! building a request, judging a decoded response, and classifying
//! connection and stream failures.

use crate::codec::decode_response;
use crate::codec::response_encodable;
use crate::codec::spec_enc_response;
use crate::codec::str_encodable;
use crate::error::OpenCliError;
use vstd::arithmetic::div_mod::lemma_multiply_divide_lt;
use vstd::prelude::*;
use vstd::slice::slice_index_get;
use vstd::string::StringExecFns;
use vstd::utf8::encode_utf8;
use vstd::utf8::is_ascii_chars;
use vstd::utf8::is_ascii_chars_encode_utf8;

verus! {

/// One invocation, as sent to the daemon.
pub struct IpcRequest {
    /// Name of the operation to run; never empty in a well-formed request.
    pub method: String,
    /// Ordered string arguments of the operation.
    pub params: Vec<String>,
    /// Auxiliary string-to-string metadata; keys unique.  Entries keep
    /// their insertion order so that a request has one wire form.
    pub context: Vec<(String, String)>,
    /// Correlation id echoed by the daemon; generated when absent.
    pub request_id: Option<String>,
    /// Requested timeout, advisory to the daemon.
    pub timeout_ms: Option<u64>,
}

/// One outcome, as decoded from the daemon's reply.
pub struct IpcResponse {
    /// Whether the daemon executed the request; decides which of
    /// `result` and `error` is authoritative.
    pub success: bool,
    /// Textual payload; daemon-defined, arbitrary on failure.
    pub result: String,
    /// Daemon-reported execution time in microseconds.
    pub duration_us: u64,
    /// Whether the daemon served a cached result; informational only.
    pub cached: bool,
    /// Echo of the request's correlation id.
    pub request_id: Option<String>,
    /// Present exactly when `success` is false.
    pub error: Option<String>,
}

/// The character sequences of a vector of strings, in order.
pub open spec fn spec_str_views(v: Seq<String>) -> Seq<Seq<char>> {
    Seq::new(v.len(), |i: int| v[i]@)
}

/// The character sequences of a vector of string pairs, in order.
pub open spec fn spec_pair_views(v: Seq<(String, String)>) -> Seq<(Seq<char>, Seq<char>)> {
    Seq::new(v.len(), |i: int| (v[i].0@, v[i].1@))
}

/// The character sequence of an optional string.
pub open spec fn spec_opt_view(o: Option<String>) -> Option<Seq<char>> {
    match o {
        Some(s) => Some(s@),
        None => None,
    }
}

/// A well-formed request: a named method, and unique context keys.
pub open spec fn request_wf(r: &IpcRequest) -> bool {
    &&& r.method@.len() > 0
    &&& forall|i: int, j: int|
        0 <= i < j < r.context@.len() ==> r.context@[i].0@ != r.context@[j].0@
}

// ---------------------------------------------------------------------------
// Correlation ids
// ---------------------------------------------------------------------------
/// The lowercase hexadecimal digit for a value below 16.
pub open spec fn spec_hex_char(d: int) -> char {
    if d == 0 {
        '0'
    } else if d == 1 {
        '1'
    } else if d == 2 {
        '2'
    } else if d == 3 {
        '3'
    } else if d == 4 {
        '4'
    } else if d == 5 {
        '5'
    } else if d == 6 {
        '6'
    } else if d == 7 {
        '7'
    } else if d == 8 {
        '8'
    } else if d == 9 {
        '9'
    } else if d == 10 {
        'a'
    } else if d == 11 {
        'b'
    } else if d == 12 {
        'c'
    } else if d == 13 {
        'd'
    } else if d == 14 {
        'e'
    } else {
        'f'
    }
}

/// The lowercase hexadecimal digits of `n`, most significant first,
/// without leading zeros (a single `0` for zero).
pub open spec fn spec_hex_digits(n: nat) -> Seq<char>
    decreases n,
{
    if n < 16 {
        seq![spec_hex_char(n as int)]
    } else {
        spec_hex_digits(n / 16) + seq![spec_hex_char((n % 16) as int)]
    }
}

proof fn lemma_hex_digits_nonempty(n: nat)
    ensures
        spec_hex_digits(n).len() >= 1,
    decreases n,
{
    if n >= 16 {
        lemma_hex_digits_nonempty(n / 16);
    }
}

spec fn pow16(k: nat) -> int
    decreases k,
{
    if k == 0 {
        1
    } else {
        16 * pow16((k - 1) as nat)
    }
}

proof fn lemma_pow16_u128()
    ensures
        pow16(32) == 0x1_0000_0000_0000_0000_0000_0000_0000_0000,
{
    assert(pow16(0) == 1);
    assert(pow16(1) == 16 * pow16(0));
    assert(pow16(2) == 16 * pow16(1));
    assert(pow16(3) == 16 * pow16(2));
    assert(pow16(4) == 16 * pow16(3));
    assert(pow16(5) == 16 * pow16(4));
    assert(pow16(6) == 16 * pow16(5));
    assert(pow16(7) == 16 * pow16(6));
    assert(pow16(8) == 16 * pow16(7));
    assert(pow16(9) == 16 * pow16(8));
    assert(pow16(10) == 16 * pow16(9));
    assert(pow16(11) == 16 * pow16(10));
    assert(pow16(12) == 16 * pow16(11));
    assert(pow16(13) == 16 * pow16(12));
    assert(pow16(14) == 16 * pow16(13));
    assert(pow16(15) == 16 * pow16(14));
    assert(pow16(16) == 16 * pow16(15));
    assert(pow16(17) == 16 * pow16(16));
    assert(pow16(18) == 16 * pow16(17));
    assert(pow16(19) == 16 * pow16(18));
    assert(pow16(20) == 16 * pow16(19));
    assert(pow16(21) == 16 * pow16(20));
    assert(pow16(22) == 16 * pow16(21));
    assert(pow16(23) == 16 * pow16(22));
    assert(pow16(24) == 16 * pow16(23));
    assert(pow16(25) == 16 * pow16(24));
    assert(pow16(26) == 16 * pow16(25));
    assert(pow16(27) == 16 * pow16(26));
    assert(pow16(28) == 16 * pow16(27));
    assert(pow16(29) == 16 * pow16(28));
    assert(pow16(30) == 16 * pow16(29));
    assert(pow16(31) == 16 * pow16(30));
    assert(pow16(32) == 16 * pow16(31));
}

/// A value below 16^k has at most k hex digits.
proof fn lemma_hex_digits_len(n: nat, k: nat)
    requires
        1 <= k,
        n < pow16(k),
    ensures
        spec_hex_digits(n).len() <= k,
    decreases k,
{
    if n >= 16 {
        assert(pow16(k) == 16 * pow16((k - 1) as nat));
        if k == 1 {
            assert(pow16(0) == 1);
            assert(false);
        }
        lemma_multiply_divide_lt(n as int, 16, pow16((k - 1) as nat));
        lemma_hex_digits_len(n / 16, (k - 1) as nat);
    }
}

/// Every hex digit is an ASCII character.
proof fn lemma_hex_digits_ascii(n: nat)
    ensures
        is_ascii_chars(spec_hex_digits(n)),
    decreases n,
{
    if n < 16 {
        assert('\0' <= spec_hex_char(n as int) <= '\u{7f}');
        assert(spec_hex_digits(n)[0] == spec_hex_char(n as int));
    } else {
        lemma_hex_digits_ascii(n / 16);
        let a = spec_hex_digits(n / 16);
        let c = spec_hex_char((n % 16) as int);
        assert('\0' <= c <= '\u{7f}');
        assert forall|i: int|
            0 <= i < spec_hex_digits(n).len() implies '\0' <= #[trigger] spec_hex_digits(n)[i]
            <= '\u{7f}' by {
            if i < a.len() {
                assert(spec_hex_digits(n)[i] == a[i]);
            } else {
                assert(spec_hex_digits(n)[i] == c);
            }
        }
    }
}

/// One lowercase hexadecimal digit as a string.
fn hex_digit_str(d: u64) -> (r: String)
    requires
        d < 16,
    ensures
        r@ == seq![spec_hex_char(d as int)],
{
    let s: &str = if d == 0 {
        "0"
    } else if d == 1 {
        "1"
    } else if d == 2 {
        "2"
    } else if d == 3 {
        "3"
    } else if d == 4 {
        "4"
    } else if d == 5 {
        "5"
    } else if d == 6 {
        "6"
    } else if d == 7 {
        "7"
    } else if d == 8 {
        "8"
    } else if d == 9 {
        "9"
    } else if d == 10 {
        "a"
    } else if d == 11 {
        "b"
    } else if d == 12 {
        "c"
    } else if d == 13 {
        "d"
    } else if d == 14 {
        "e"
    } else {
        "f"
    };
    proof {
        reveal_strlit("0");
        reveal_strlit("1");
        reveal_strlit("2");
        reveal_strlit("3");
        reveal_strlit("4");
        reveal_strlit("5");
        reveal_strlit("6");
        reveal_strlit("7");
        reveal_strlit("8");
        reveal_strlit("9");
        reveal_strlit("a");
        reveal_strlit("b");
        reveal_strlit("c");
        reveal_strlit("d");
        reveal_strlit("e");
        reveal_strlit("f");
        assert(s@ =~= seq![spec_hex_char(d as int)]);
    }
    String::from_str(s)
}

/// The lowercase hexadecimal form of `n`.
fn u128_hex(n: u128) -> (r: String)
    ensures
        r@ == spec_hex_digits(n as nat),
    decreases n,
{
    if n < 16 {
        hex_digit_str(n as u64)
    } else {
        let mut s = u128_hex(n / 16);
        let d = hex_digit_str((n % 16) as u64);
        s.append(d.as_str());
        s
    }
}

/// Relies on std::time::SystemTime::now and its duration_since from
/// std::time::UNIX_EPOCH: the clock's reading in nanoseconds since the
/// epoch, or 0 if the clock stands before the epoch.  Nothing can be
/// promised of a clock reading.
#[verifier::external_body]
fn clock_nanos() -> u128 {
    match std::time::SystemTime::now().duration_since(std::time::UNIX_EPOCH) {
        Ok(d) => d.as_nanos(),
        Err(_) => 0,
    }
}

/// A correlation id: one clock reading, shown as hex digits.
pub struct Uuid {
    /// The clock reading this id was made from.
    pub nanos: u128,
}

impl Uuid {
    /// A fresh id from the current clock reading.
    pub fn new_v4() -> Uuid {
        Uuid { nanos: clock_nanos() }
    }

    /// The id's text: the reading's lowercase hexadecimal digits.
    pub fn to_string(&self) -> (r: String)
        ensures
            r@ == spec_hex_digits(self.nanos as nat),
            r@.len() >= 1,
    {
        proof {
            lemma_hex_digits_nonempty(self.nanos as nat);
        }
        u128_hex(self.nanos)
    }
}

// ---------------------------------------------------------------------------
// Client-side protocol decisions
// ---------------------------------------------------------------------------
/// Build the request for one invocation: the caller's method and
/// arguments, an empty context, a fresh correlation id, and the default
/// advisory timeout of 30000 milliseconds.
pub fn build_request(method: &str, params: &[String]) -> (r: IpcRequest)
    requires
        method@.len() > 0,
    ensures
        r.method@ == method@,
        spec_str_views(r.params@) == spec_str_views(params@),
        r.context@.len() == 0,
        r.request_id matches Some(id) && id@.len() >= 1 && str_encodable(id@) && (exists|n: nat|
            id@ == #[trigger] spec_hex_digits(n)),
        r.timeout_ms == Some(30000u64),
        request_wf(&r),
{
    let mut ps: Vec<String> = Vec::new();
    let mut i: usize = 0;
    while i < params.len()
        invariant
            i <= params@.len(),
            ps@.len() == i,
            forall|j: int| 0 <= j < i ==> ps@[j]@ == params@[j]@,
        decreases params@.len() - i,
    {
        ps.push(slice_index_get(params, i).clone());
        i += 1;
    }
    assert(spec_str_views(ps@) =~= spec_str_views(params@));
    let fresh = Uuid::new_v4();
    let id = fresh.to_string();
    proof {
        let n = fresh.nanos as nat;
        lemma_pow16_u128();
        lemma_hex_digits_len(n, 32);
        lemma_hex_digits_ascii(n);
        is_ascii_chars_encode_utf8(spec_hex_digits(n));
        assert(encode_utf8(id@).len() <= 32);
    }
    IpcRequest {
        method: method.to_owned(),
        params: ps,
        context: Vec::new(),
        request_id: Some(id),
        timeout_ms: Some(30000),
    }
}

/// Judge a decoded response: a successful one passes through unchanged; a
/// failed one becomes a request failure carrying the daemon's error text,
/// or the fixed placeholder when the daemon gave none.
pub fn accept_response(resp: IpcResponse) -> (r: Result<IpcResponse, OpenCliError>)
    ensures
        resp.success ==> (r matches Ok(w) && w == resp),
        !resp.success ==> (r matches Err(e) && e matches OpenCliError::RequestFailed(m) && (
        resp.error matches Some(t) ==> m@ == t@) && (resp.error is None ==> m@
            == "Unknown error"@)),
{
    if resp.success {
        Ok(resp)
    } else {
        match resp.error {
            Some(t) => Err(OpenCliError::RequestFailed(t)),
            None => Err(OpenCliError::RequestFailed(String::from_str("Unknown error"))),
        }
    }
}

/// The whole receive half of one call: decode the payload of the response
/// frame, then judge it.  For every well-formed response on the wire, the
/// outcome is pinned: the result text on success, a request failure with
/// the daemon's error text (or the placeholder) otherwise.
pub fn handle_response_payload(bytes: &[u8]) -> (r: Result<String, OpenCliError>)
    ensures
        forall|v: IpcResponse|
            response_encodable(&v) && bytes@ == #[trigger] spec_enc_response(&v) ==> ((v.success
                ==> (r matches Ok(s) && s@ == v.result@)) && (!v.success ==> (r matches Err(e) && e
                matches OpenCliError::RequestFailed(m) && (spec_opt_view(v.error) matches Some(t)
                ==> m@ == t) && (spec_opt_view(v.error) is None ==> m@ == "Unknown error"@)))),
        r matches Err(e) ==> (e is DeserializationError || e is RequestFailed),
{
    let resp: IpcResponse;
    match decode_response(bytes) {
        Ok(w) => {
            resp = w;
        },
        Err(e) => {
            return Err(e);
        },
    }
    match accept_response(resp) {
        Ok(w) => Ok(w.result),
        Err(e) => Err(e),
    }
}

/// Why a connection attempt failed, as seen at the socket boundary.
pub enum ConnectFailure {
    /// Nothing listens at the endpoint: connection refused, or the
    /// endpoint is absent.
    Unreachable,
    /// Any other failure while establishing the connection.
    Other(String),
}

/// Classify a connection-establishment failure.  An unreachable endpoint
/// means the daemon is not running — the one condition with the "start
/// the daemon" hint; anything else is a connection failure carrying its
/// detail.
pub fn classify_connect_failure(f: ConnectFailure) -> (r: OpenCliError)
    ensures
        f is Unreachable ==> r is DaemonNotRunning,
        f matches ConnectFailure::Other(d) ==> (r matches OpenCliError::IpcConnectionFailed(m)
            && m@ == d@),
{
    match f {
        ConnectFailure::Unreachable => OpenCliError::DaemonNotRunning,
        ConnectFailure::Other(d) => OpenCliError::IpcConnectionFailed(d),
    }
}

/// Classify a failure after the connection stood: a write or read error,
/// or a stream closed before one whole frame arrived.  Such a failure is
/// an I/O error — never "daemon not running".
pub fn classify_stream_failure(detail: String) -> (r: OpenCliError)
    ensures
        r matches OpenCliError::IoError(m) && m@ == detail@,
{
    OpenCliError::IoError(detail)
}

} // verus!
