//! Session tokens for the browser bridge: a random 256-bit token, hex
//! encoded, compared in constant time.
use vstd::prelude::*;

verus! {

/// Lowercase hex digit of a nibble.
pub open spec fn hex_digit(n: u8) -> char {
    "0123456789abcdef"@[n as int]
}

/// Lowercase hex encoding: two digits per byte, high nibble first.
pub open spec fn hex_lower(b: Seq<u8>) -> Seq<char>
    decreases b.len(),
{
    if b.len() == 0 {
        Seq::empty()
    } else {
        hex_lower(b.drop_last()) + seq![hex_digit(b.last() / 16), hex_digit(b.last() % 16)]
    }
}

/// Relies on `hex::encode`: lowercase digits, two per byte, high nibble
/// first.
#[verifier::external_body]
fn encode_hex(bytes: &Vec<u8>) -> (r: String)
    ensures
        r@ == hex_lower(bytes@),
{
    hex::encode(bytes)
}

/// Relies on `rand::random` for a `[u8; 32]`: 32 bytes from the thread-local
/// cryptographically secure generator.
#[verifier::external_body]
fn random_token_bytes() -> (r: Vec<u8>)
    ensures
        r@.len() == 32,
{
    let b: [u8; 32] = rand::random();
    b.to_vec()
}

/// Compares two byte strings without stopping at the first difference.
pub fn constant_time_eq(a: &[u8], b: &[u8]) -> (r: bool)
    ensures
        r == (a@ == b@),
{
    if a.len() != b.len() {
        return false;
    }
    let mut acc: u8 = 0;
    let mut i: usize = 0;
    while i < a.len()
        invariant
            i <= a@.len(),
            a@.len() == b@.len(),
            (acc == 0) == (forall|j: int| 0 <= j < i ==> a@[j] == b@[j]),
        decreases a.len() - i,
    {
        let x = a[i];
        let y = b[i];
        let next: u8 = acc | (x ^ y);
        assert((next == 0) == (acc == 0 && x == y)) by (bit_vector)
            requires
                next == acc | (x ^ y),
        ;
        acc = next;
        i = i + 1;
    }
    proof {
        if acc == 0 {
            assert(a@ =~= b@);
        }
    }
    acc == 0
}

/// Holds the current session token, if any.
pub struct SessionManager {
    token: Option<String>,
}

impl View for SessionManager {
    type V = Option<Seq<char>>;

    closed spec fn view(&self) -> Option<Seq<char>> {
        match self.token {
            Some(t) => Some(t@),
            None => None,
        }
    }
}

impl SessionManager {
    /// A manager with no active token.
    pub fn new() -> (s: SessionManager)
        ensures
            s@ is None,
    {
        SessionManager { token: None }
    }

    /// Generates a fresh random token (32 bytes, 64 lowercase hex digits),
    /// stores it and returns it.
    pub fn generate_token(&mut self) -> (t: String)
        ensures
            t@.len() == 64,
            exists|b: Seq<u8>| b.len() == 32 && t@ == hex_lower(b),
            final(self)@ == Some(t@),
    {
        let bytes = random_token_bytes();
        self.install_token(&bytes)
    }

    /// Stores the hex encoding of `bytes` as the session token and returns it.
    pub fn install_token(&mut self, bytes: &Vec<u8>) -> (t: String)
        ensures
            t@ == hex_lower(bytes@),
            t@.len() == 2 * bytes@.len(),
            final(self)@ == Some(t@),
    {
        proof {
            lemma_hex_len(bytes@);
        }
        let t = encode_hex(bytes);
        self.token = Some(t.clone());
        t
    }

    /// Whether `token` equals the stored token; false when none is stored.
    pub fn validate_token(&self, token: &str) -> (r: bool)
        ensures
            r == (self@ == Some(token@)),
    {
        match &self.token {
            Some(stored) => {
                let s: &str = stored.as_str();
                let r = constant_time_eq(s.as_bytes(), token.as_bytes());
                proof {
                    vstd::utf8::encode_utf8_decode_utf8(s@);
                    vstd::utf8::encode_utf8_decode_utf8(token@);
                }
                r
            },
            None => false,
        }
    }

    /// Forgets the current token.
    pub fn clear_token(&mut self)
        ensures
            final(self)@ is None,
    {
        self.token = None;
    }

    /// Whether a token is stored.
    pub fn has_active_session(&self) -> (r: bool)
        ensures
            r == self@ is Some,
    {
        self.token.is_some()
    }
}

/// A session manager with no active token.
pub fn create_session_manager() -> (s: SessionManager)
    ensures
        s@ is None,
{
    SessionManager::new()
}

/// The encoding has two digits per byte.
pub proof fn lemma_hex_len(b: Seq<u8>)
    ensures
        hex_lower(b).len() == 2 * b.len(),
    decreases b.len(),
{
    if b.len() > 0 {
        lemma_hex_len(b.drop_last());
    }
}

} // verus!
