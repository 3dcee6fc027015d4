//! The JSON-RPC client's own logic: the credentials it sends, the command
//! and parameters of each request, and how it judges and reports replies.
//! Sending the requests is the caller's part.
use vstd::prelude::*;
use vstd::utf8::{decode_utf8, encode_utf8, encode_utf8_decode_utf8};

use base64::Engine;

verus! {

// ---------------------------------------------------------------------------
// Credentials

/// The character of the standard base64 alphabet (RFC 4648) for the six-bit
/// value `v`: `A`-`Z`, `a`-`z`, `0`-`9`, `+`, `/`.
pub open spec fn base64_digit(v: int) -> char {
    if v < 26 {
        (65 + v) as char
    } else if v < 52 {
        (97 + v - 26) as char
    } else if v < 62 {
        (48 + v - 52) as char
    } else if v == 62 {
        '+'
    } else {
        '/'
    }
}

/// The standard base64 text (RFC 4648, `=` padding) of `b`: every group of
/// three bytes gives four digits of six bits each; a last group of one or
/// two bytes is filled with zero bits and padded with `=` to four
/// characters.
pub open spec fn base64_standard(b: Seq<u8>) -> Seq<char>
    decreases b.len(),
{
    let x = if b.len() > 0 { b[0] as int } else { 0 };
    let y = if b.len() > 1 { b[1] as int } else { 0 };
    let z = if b.len() > 2 { b[2] as int } else { 0 };
    if b.len() == 0 {
        Seq::empty()
    } else if b.len() == 1 {
        seq![base64_digit(x / 4), base64_digit((x % 4) * 16), '=', '=']
    } else if b.len() == 2 {
        seq![base64_digit(x / 4), base64_digit((x % 4) * 16 + y / 16), base64_digit((y % 16) * 4), '=']
    } else {
        seq![
            base64_digit(x / 4),
            base64_digit((x % 4) * 16 + y / 16),
            base64_digit((y % 16) * 4 + z / 64),
            base64_digit(z % 64),
        ] + base64_standard(b.subrange(3, b.len() as int))
    }
}

/// Length of the padded base64 text of `n` bytes: four characters for every
/// started group of three bytes.
pub open spec fn base64_padded_len(n: nat) -> int {
    (n / 3) * 4 + if n % 3 > 0 { 4int } else { 0int }
}

/// `base64::engine::general_purpose::STANDARD.encode`: the padded standard
/// base64 text of `bytes` (the crate's `STANDARD` engine: RFC 4648 alphabet,
/// with padding). Its length is four characters per started group of three
/// bytes (the crate's `encoded_len`); the crate panics when that length
/// overflows `usize`, which `requires` rules out.
#[verifier::external_body]
fn base64_encode(bytes: &[u8]) -> (r: String)
    requires
        base64_padded_len(bytes@.len()) <= usize::MAX,
    ensures
        r@ == base64_standard(bytes@),
        r@.len() == base64_padded_len(bytes@.len()),
{
    base64::engine::general_purpose::STANDARD.encode(bytes)
}

/// The six-bit value of a character of the standard base64 alphabet, or -1
/// for any other character (`=` among them).
pub open spec fn base64_value(c: char) -> int {
    if 'A' <= c && c <= 'Z' {
        c as int - 65
    } else if 'a' <= c && c <= 'z' {
        c as int - 97 + 26
    } else if '0' <= c && c <= '9' {
        c as int - 48 + 52
    } else if c == '+' {
        62
    } else if c == '/' {
        63
    } else {
        -1
    }
}

/// The bytes of a standard base64 text (RFC 4648, `=` padding), read four
/// characters at a time, or `None` where the text is not one: four digits
/// give three bytes; a last group of two digits and `==` gives one byte, one
/// of three digits and `=` two.
pub open spec fn base64_decode(s: Seq<char>) -> Option<Seq<u8>>
    decreases s.len(),
{
    if s.len() == 0 {
        Some(Seq::empty())
    } else if s.len() < 4 {
        None
    } else {
        let a = base64_value(s[0]);
        let b = base64_value(s[1]);
        let c = base64_value(s[2]);
        let d = base64_value(s[3]);
        if a < 0 || b < 0 {
            None
        } else if s.len() == 4 && s[2] == '=' && s[3] == '=' {
            Some(seq![(a * 4 + b / 16) as u8])
        } else if s.len() == 4 && c >= 0 && s[3] == '=' {
            Some(seq![(a * 4 + b / 16) as u8, ((b % 16) * 16 + c / 4) as u8])
        } else if c >= 0 && d >= 0 {
            match base64_decode(s.subrange(4, s.len() as int)) {
                Some(rest) => Some(
                    seq![(a * 4 + b / 16) as u8, ((b % 16) * 16 + c / 4) as u8, ((c % 4) * 64 + d) as u8]
                        + rest,
                ),
                None => None,
            }
        } else {
            None
        }
    }
}

/// Each six-bit value is read back from its digit.
proof fn lemma_base64_digit_value(v: int)
    requires
        0 <= v < 64,
    ensures
        base64_value(base64_digit(v)) == v,
{
}

/// The six-bit pieces of three bytes give the bytes back.
proof fn lemma_base64_pieces(x: int, y: int, z: int)
    requires
        0 <= x < 256,
        0 <= y < 256,
        0 <= z < 256,
    ensures
        (x / 4) * 4 + ((x % 4) * 16 + y / 16) / 16 == x,
        (((x % 4) * 16 + y / 16) % 16) * 16 + ((y % 16) * 4 + z / 64) / 4 == y,
        ((((y % 16) * 4 + z / 64) % 4) * 64 + z % 64) == z,
        0 <= (x % 4) * 16 + y / 16 < 64,
        0 <= (y % 16) * 4 + z / 64 < 64,
        0 <= x / 4 < 64,
{
}

/// Reading the standard base64 text of any bytes gives those bytes back.
pub proof fn law_base64_round_trip(b: Seq<u8>)
    ensures
        base64_decode(base64_standard(b)) == Some(b),
    decreases b.len(),
{
    let s = base64_standard(b);
    if b.len() == 0 {
        return;
    }
    let x = b[0] as int;
    let y = if b.len() > 1 { b[1] as int } else { 0 };
    let z = if b.len() > 2 { b[2] as int } else { 0 };
    lemma_base64_pieces(x, y, z);
    lemma_base64_digit_value(x / 4);
    lemma_base64_digit_value((x % 4) * 16 + y / 16);
    lemma_base64_digit_value((y % 16) * 4 + z / 64);
    lemma_base64_digit_value(z % 64);
    if b.len() == 1 {
        assert(base64_decode(s) == Some(seq![b[0]]));
        assert(seq![b[0]] =~= b);
    } else if b.len() == 2 {
        assert(base64_decode(s) == Some(seq![b[0], b[1]]));
        assert(seq![b[0], b[1]] =~= b);
    } else {
        let rest = b.subrange(3, b.len() as int);
        law_base64_round_trip(rest);
        assert(s.subrange(4, s.len() as int) =~= base64_standard(rest));
        assert(seq![b[0], b[1], b[2]] + rest =~= b);
    }
}

/// The text `user:pass` whose base64 form authenticates a client.
pub open spec fn credentials(user: Seq<char>, pass: Seq<char>) -> Seq<char> {
    user + ":"@ + pass
}

/// The token made for `user` and `pass` reads back, as standard base64 and
/// then UTF-8, as exactly the user name, one colon and the whole password,
/// whatever their lengths.
pub proof fn law_token_names_user_and_password(user: Seq<char>, pass: Seq<char>)
    ensures
        base64_decode(base64_standard(encode_utf8(credentials(user, pass)))) matches Some(bytes)
            && decode_utf8(bytes) == user + seq![':'] + pass,
{
    reveal_strlit(":");
    assert(credentials(user, pass) =~= user + seq![':'] + pass);
    law_base64_round_trip(encode_utf8(credentials(user, pass)));
    encode_utf8_decode_utf8(user + seq![':'] + pass);
}

/// The basic-authentication token for `user` and `pass`: the base64 text of
/// the UTF-8 bytes of `user:pass`.
pub fn basic_auth_token(user: &str, pass: &str) -> (token: String)
    requires
        base64_padded_len(encode_utf8(credentials(user@, pass@)).len()) <= usize::MAX,
    ensures
        token@ == base64_standard(encode_utf8(credentials(user@, pass@))),
        base64_decode(token@) matches Some(bytes) && decode_utf8(bytes) == user@ + seq![':'] + pass@,
{
    let mut text = user.to_owned();
    text.append(":");
    text.append(pass);
    let bytes = text.as_str().as_bytes();
    let token = base64_encode(bytes);
    proof {
        law_token_names_user_and_password(user@, pass@);
    }
    token
}

/// The value of the `Authorization` header that carries `token`.
pub fn authorization_header(token: &String) -> (h: String)
    ensures
        h@ == "Basic "@ + token@,
{
    let mut h = "Basic ".to_owned();
    h.append(token.as_str());
    h
}

// ---------------------------------------------------------------------------
// Requests

/// One positional parameter of a command.
pub enum RpcParam {
    Text(String),
    Number(u64),
}

/// `p` is the text parameter `t`.
pub open spec fn is_text(p: RpcParam, t: Seq<char>) -> bool {
    p matches RpcParam::Text(s) && s@ == t
}

/// A node command and its positional parameters.
pub struct RpcCall {
    pub method: String,
    pub params: Vec<RpcParam>,
}

/// The JSON-RPC 2.0 envelope of a command.
pub struct RpcRequest {
    pub jsonrpc: String,
    pub id: u64,
    pub method: String,
    pub params: Vec<RpcParam>,
}

impl RpcCall {
    fn bare(method: &str) -> (c: RpcCall)
        ensures
            c.method@ == method@,
            c.params@.len() == 0,
    {
        RpcCall { method: method.to_owned(), params: Vec::new() }
    }

    fn with_text(method: &str, t: &str) -> (c: RpcCall)
        ensures
            c.method@ == method@,
            c.params@.len() == 1,
            is_text(c.params@[0], t@),
    {
        let mut params = Vec::new();
        params.push(RpcParam::Text(t.to_owned()));
        RpcCall { method: method.to_owned(), params }
    }

    /// `getblockchaininfo`.
    pub fn get_blockchain_info() -> (c: RpcCall)
        ensures
            c.method@ == "getblockchaininfo"@,
            c.params@.len() == 0,
    {
        RpcCall::bare("getblockchaininfo")
    }

    /// `getbestblockhash`.
    pub fn get_best_block_hash() -> (c: RpcCall)
        ensures
            c.method@ == "getbestblockhash"@,
            c.params@.len() == 0,
    {
        RpcCall::bare("getbestblockhash")
    }

    /// `getblockhash height`.
    pub fn get_block_hash(height: u64) -> (c: RpcCall)
        ensures
            c.method@ == "getblockhash"@,
            c.params@ == seq![RpcParam::Number(height)],
    {
        let mut params = Vec::new();
        params.push(RpcParam::Number(height));
        RpcCall { method: "getblockhash".to_owned(), params }
    }

    /// `getblock hash 1`: the block described as a JSON object.
    pub fn get_block(hash: &str) -> (c: RpcCall)
        ensures
            c.method@ == "getblock"@,
            c.params@.len() == 2,
            is_text(c.params@[0], hash@),
            c.params@[1] == RpcParam::Number(1),
    {
        let mut c = RpcCall::with_text("getblock", hash);
        c.params.push(RpcParam::Number(1));
        c
    }

    /// `getblock hash 0`: the block as raw hex.
    pub fn get_block_hex(hash: &str) -> (c: RpcCall)
        ensures
            c.method@ == "getblock"@,
            c.params@.len() == 2,
            is_text(c.params@[0], hash@),
            c.params@[1] == RpcParam::Number(0),
    {
        let mut c = RpcCall::with_text("getblock", hash);
        c.params.push(RpcParam::Number(0));
        c
    }

    /// `getchaintips`.
    pub fn get_chain_tips() -> (c: RpcCall)
        ensures
            c.method@ == "getchaintips"@,
            c.params@.len() == 0,
    {
        RpcCall::bare("getchaintips")
    }

    /// `generatetoaddress count address`.
    pub fn generate_to_address(count: u64, address: &str) -> (c: RpcCall)
        ensures
            c.method@ == "generatetoaddress"@,
            c.params@.len() == 2,
            c.params@[0] == RpcParam::Number(count),
            is_text(c.params@[1], address@),
    {
        let mut params = Vec::new();
        params.push(RpcParam::Number(count));
        params.push(RpcParam::Text(address.to_owned()));
        RpcCall { method: "generatetoaddress".to_owned(), params }
    }

    /// `getnewaddress`.
    pub fn get_new_address() -> (c: RpcCall)
        ensures
            c.method@ == "getnewaddress"@,
            c.params@.len() == 0,
    {
        RpcCall::bare("getnewaddress")
    }

    /// `listwallets`.
    pub fn list_wallets() -> (c: RpcCall)
        ensures
            c.method@ == "listwallets"@,
            c.params@.len() == 0,
    {
        RpcCall::bare("listwallets")
    }

    /// `createwallet default`.
    pub fn create_wallet() -> (c: RpcCall)
        ensures
            c.method@ == "createwallet"@,
            c.params@.len() == 1,
            is_text(c.params@[0], "default"@),
    {
        RpcCall::with_text("createwallet", "default")
    }

    /// `invalidateblock hash`.
    pub fn invalidate_block(hash: &str) -> (c: RpcCall)
        ensures
            c.method@ == "invalidateblock"@,
            c.params@.len() == 1,
            is_text(c.params@[0], hash@),
    {
        RpcCall::with_text("invalidateblock", hash)
    }

    /// `reconsiderblock hash`.
    pub fn reconsider_block(hash: &str) -> (c: RpcCall)
        ensures
            c.method@ == "reconsiderblock"@,
            c.params@.len() == 1,
            is_text(c.params@[0], hash@),
    {
        RpcCall::with_text("reconsiderblock", hash)
    }

    /// `submitblock hex`.
    pub fn submit_block(hex: &str) -> (c: RpcCall)
        ensures
            c.method@ == "submitblock"@,
            c.params@.len() == 1,
            is_text(c.params@[0], hex@),
    {
        RpcCall::with_text("submitblock", hex)
    }

    /// The JSON-RPC 2.0 request that carries this command under `id`.
    pub fn into_request(self, id: u64) -> (r: RpcRequest)
        ensures
            r.jsonrpc@ == "2.0"@,
            r.id == id,
            r.method == self.method,
            r.params == self.params,
    {
        RpcRequest { jsonrpc: "2.0".to_owned(), id, method: self.method, params: self.params }
    }
}

// ---------------------------------------------------------------------------
// Replies and failures

/// Why a command failed.
pub enum RpcFailure {
    /// The request could not be sent or got no answer.
    Transport(String),
    /// The answer was not a JSON-RPC response.
    Malformed(String),
    /// The node answered with an error object (given as JSON text).
    Remote(String),
    /// The result did not have the shape the command returns.
    Parse(String),
    /// The result should have been a string.
    ExpectedString,
}

/// The message that reports a failure.
pub open spec fn failure_text(f: RpcFailure) -> Seq<char> {
    match f {
        RpcFailure::Transport(d) => "RPC request failed: "@ + d@,
        RpcFailure::Malformed(d) => "Failed to parse RPC response: "@ + d@,
        RpcFailure::Remote(d) => "RPC error: "@ + d@,
        RpcFailure::Parse(d) => "Parse error: "@ + d@,
        RpcFailure::ExpectedString => "Expected string"@,
    }
}

fn prefixed(prefix: &str, detail: &String) -> (m: String)
    ensures
        m@ == prefix@ + detail@,
{
    let mut m = prefix.to_owned();
    m.append(detail.as_str());
    m
}

impl RpcFailure {
    /// The message that reports this failure.
    pub fn message(&self) -> (m: String)
        ensures
            m@ == failure_text(*self),
    {
        match self {
            RpcFailure::Transport(d) => prefixed("RPC request failed: ", d),
            RpcFailure::Malformed(d) => prefixed("Failed to parse RPC response: ", d),
            RpcFailure::Remote(d) => prefixed("RPC error: ", d),
            RpcFailure::Parse(d) => prefixed("Parse error: ", d),
            RpcFailure::ExpectedString => "Expected string".to_owned(),
        }
    }
}

/// Judges a JSON-RPC response by its error member (given as JSON text when
/// present): a response with an error fails with it; any other succeeds, and
/// its result (null when absent) is the command's answer.
pub fn settle_reply(error: Option<String>) -> (r: Result<(), RpcFailure>)
    ensures
        match error {
            Some(e) => r == Err::<(), RpcFailure>(RpcFailure::Remote(e)),
            None => r is Ok,
        },
{
    match error {
        Some(e) => Err(RpcFailure::Remote(e)),
        None => Ok(()),
    }
}

/// The answer of a command that returns a string: the string when the result
/// is one (given as `Some`), a failure otherwise.
pub fn expect_text(result: Option<String>) -> (r: Result<String, RpcFailure>)
    ensures
        match result {
            Some(s) => r == Ok::<String, RpcFailure>(s),
            None => r == Err::<String, RpcFailure>(RpcFailure::ExpectedString),
        },
{
    match result {
        Some(s) => Ok(s),
        None => Err(RpcFailure::ExpectedString),
    }
}

// ---------------------------------------------------------------------------
// The wallet

/// `needle` occurs in `hay`, byte for byte in UTF-8 (the empty text occurs in
/// every text).
pub open spec fn contains_text(hay: Seq<char>, needle: Seq<char>) -> bool {
    let h = encode_utf8(hay);
    let n = encode_utf8(needle);
    exists|i: int| 0 <= i && i + n.len() <= h.len() && #[trigger] h.subrange(i, i + n.len()) == n
}

/// Whether `needle` occurs in `hay`.
pub fn text_contains(hay: &str, needle: &str) -> (r: bool)
    ensures
        r == contains_text(hay@, needle@),
{
    let h = hay.as_bytes();
    let n = needle.as_bytes();
    let hl = h.len();
    let nl = n.len();
    if nl > hl {
        proof {
            assert forall|i: int| 0 <= i && i + n@.len() <= h@.len() implies #[trigger] h@.subrange(i, i + n@.len()) != n@ by {
            }
        }
        return false;
    }
    let mut i: usize = 0;
    while i <= hl - nl
        invariant
            h@ == encode_utf8(hay@),
            n@ == encode_utf8(needle@),
            hl == h@.len(),
            nl == n@.len(),
            nl <= hl,
            i <= hl - nl + 1,
            forall|k: int| 0 <= k < i ==> #[trigger] h@.subrange(k, k + nl) != n@,
        decreases hl - nl + 1 - i,
    {
        let mut j: usize = 0;
        let mut same = true;
        while j < nl
            invariant
                hl == h@.len(),
                nl == n@.len(),
                i + nl <= hl,
                j <= nl,
                same == (forall|t: int| 0 <= t < j ==> h@[i + t] == n@[t]),
            decreases nl - j,
        {
            if h[i + j] != n[j] {
                same = false;
            }
            j = j + 1;
        }
        if same {
            proof {
                assert(h@.subrange(i as int, i + nl) =~= n@);
            }
            return true;
        }
        proof {
            let t = choose|t: int| 0 <= t < nl && h@[i + t] != n@[t];
            assert(h@.subrange(i as int, i + nl)[t] != n@[t]);
        }
        i = i + 1;
    }
    proof {
        assert forall|k: int| 0 <= k && k + n@.len() <= h@.len() implies #[trigger] h@.subrange(k, k + n@.len()) != n@ by {
            assert(k < i);
        }
    }
    false
}

/// Whether the answer to `listwallets` shows a loaded wallet: it is a list
/// (`Some` of its length) with at least one entry.
pub fn has_loaded_wallet(listed: Option<usize>) -> (r: bool)
    ensures
        r == (listed matches Some(n) && n > 0),
{
    match listed {
        Some(n) => n > 0,
        None => false,
    }
}

/// Whether the node has a wallet after `createwallet` answered: yes when the
/// wallet was created or the failure says that it already exists; any other
/// failure is passed on.
pub fn wallet_after_create(created: Result<(), String>) -> (r: Result<(), String>)
    ensures
        match created {
            Ok(()) => r is Ok,
            Err(e) => if contains_text(e@, "already exists"@) { r is Ok } else { r == Err::<(), String>(e) },
        },
{
    match created {
        Ok(()) => Ok(()),
        Err(e) => {
            if text_contains(e.as_str(), "already exists") {
                Ok(())
            } else {
                Err(e)
            }
        },
    }
}

} // verus!
