//! HTTP Basic authentication: the server's credentials, reading an
//! `Authorization` header, and which requests may pass.

use vstd::prelude::*;
use vstd::utf8::{decode_utf8, encode_utf8, valid_utf8};
use base64::Engine;
use crate::text::chars_of;

verus! {

/// The server's admin username and password.
pub struct Credentials {
    pub username: String,
    pub password: String,
}

impl Clone for Credentials {
    fn clone(&self) -> (r: Self)
        ensures
            r.username@ == self.username@,
            r.password@ == self.password@,
    {
        Credentials { username: self.username.clone(), password: self.password.clone() }
    }
}

impl Credentials {
    /// Where the credentials come from: the environment's username and
    /// password where both are set, else a previously stored pair; `None`
    /// where fresh credentials must be generated.
    pub fn pick(env_user: Option<String>, env_password: Option<String>, stored: Option<Credentials>) -> (r: Option<Credentials>)
        ensures
            match (env_user, env_password) {
                (Some(u), Some(p)) => r matches Some(c) && c.username@ == u@ && c.password@ == p@,
                _ => match stored {
                    Some(s) => r matches Some(c) && c.username@ == s.username@ && c.password@ == s.password@,
                    None => r is None,
                },
            },
    {
        match (env_user, env_password) {
            (Some(username), Some(password)) => Some(Credentials { username, password }),
            _ => stored,
        }
    }

    /// Freshly generated credentials: user `admin` with the given random
    /// password.
    pub fn generated(password: String) -> (r: Credentials)
        ensures
            r.username@ == "admin"@,
            r.password@ == password@,
    {
        proof {
            reveal_strlit("admin");
        }
        Credentials { username: "admin".to_owned(), password }
    }
}

/// Compares two strings byte by byte without stopping at the first
/// difference, so that the time taken does not tell how much of a guess
/// was right.
pub fn constant_time_eq(a: &str, b: &str) -> (r: bool)
    ensures
        r == (a@ == b@),
{
    broadcast use vstd::utf8::encode_utf8_decode_utf8;
    let x = a.as_bytes();
    let y = b.as_bytes();
    if x.len() != y.len() {
        return false;
    }
    assert(x@.len() == y@.len());
    let mut acc: u8 = 0;
    let mut i: usize = 0;
    while i < x.len()
        invariant
            x@.len() == y@.len(),
            i <= x@.len(),
            (acc == 0) <==> (forall|j: int| 0 <= j < i ==> x@[j] == y@[j]),
        decreases x.len() - i,
    {
        let xi = x[i];
        let yi = y[i];
        let next = acc | (xi ^ yi);
        assert(((acc | (xi ^ yi)) == 0) <==> (acc == 0 && xi == yi)) by (bit_vector);
        acc = next;
        i = i + 1;
    }
    proof {
        assert(decode_utf8(encode_utf8(a@)) == a@);
        assert(decode_utf8(encode_utf8(b@)) == b@);
        if acc == 0 {
            assert(x@ =~= y@);
        }
    }
    acc == 0
}

/// The bytes that standard, padded base64 decodes `input` to; `None` where
/// it is not valid base64.
pub uninterp spec fn base64_standard_decode(input: Seq<u8>) -> Option<Seq<u8>>;

/// `base64::engine::general_purpose::STANDARD.decode`, its error given as
/// the text that `base64::DecodeError`'s `Display` writes (which is not
/// stated here).
#[verifier::external_body]
pub(crate) fn base64_decode(input: &str) -> (r: Result<Vec<u8>, String>)
    ensures
        match r {
            Ok(b) => base64_standard_decode(encode_utf8(input@)) == Some(b@),
            Err(_) => base64_standard_decode(encode_utf8(input@)) is None,
        },
{
    base64::engine::general_purpose::STANDARD.decode(input).map_err(|e| e.to_string())
}

/// Position of the first `':'` in `s` at or after `i`.
pub open spec fn colon_from(s: Seq<char>, i: int) -> Option<int>
    decreases s.len() - i,
{
    if i < 0 || i >= s.len() {
        None
    } else if s[i] == ':' {
        Some(i)
    } else {
        colon_from(s, i + 1)
    }
}

pub open spec fn basic_prefix() -> Seq<char> {
    seq!['B', 'a', 's', 'i', 'c', ' ']
}

/// The username and password that an `Authorization` header value carries:
/// after `"Basic "`, base64 of UTF-8 text `user:password`, split at the
/// first colon.
pub open spec fn basic_credentials(h: Seq<char>) -> Option<(Seq<char>, Seq<char>)> {
    if h.len() >= 6 && h.take(6) == basic_prefix() {
        match base64_standard_decode(encode_utf8(h.skip(6))) {
            Some(b) => if valid_utf8(b) {
                let t = decode_utf8(b);
                match colon_from(t, 0) {
                    Some(i) => Some((t.take(i), t.skip(i + 1))),
                    None => None,
                }
            } else {
                None
            },
            None => None,
        }
    } else {
        None
    }
}

/// Reads the credentials of an `Authorization` header value.
#[verifier::loop_isolation(false)]
pub fn parse_basic_auth(header: &str) -> (r: Option<(String, String)>)
    ensures
        match basic_credentials(header@) {
            Some((u, p)) => r matches Some((ru, rp)) && ru@ == u && rp@ == p,
            None => r is None,
        },
{
    let cs = chars_of(header);
    let prefix = chars_of("Basic ");
    proof {
        reveal_strlit("Basic ");
        assert(prefix@ =~= basic_prefix());
    }
    if cs.len() < 6 {
        return None;
    }
    let mut i: usize = 0;
    while i < 6
        invariant
            i <= 6,
            cs@ == header@,
            cs@.len() >= 6,
            prefix@ == basic_prefix(),
            forall|j: int| 0 <= j < i ==> cs@[j] == basic_prefix()[j],
        decreases 6 - i,
    {
        if cs[i] != prefix[i] {
            proof {
                assert(header@.take(6)[i as int] != basic_prefix()[i as int]);
            }
            return None;
        }
        i = i + 1;
    }
    proof {
        assert(header@.take(6) =~= basic_prefix());
    }
    let rest = header.substring_char(6, cs.len());
    proof {
        assert(rest@ =~= header@.skip(6));
    }
    let bytes = match base64_decode(rest) {
        Ok(b) => b,
        Err(_) => {
            return None;
        },
    };
    let text = match crate::text::string_from_utf8(bytes.as_slice()) {
        Ok(t) => t,
        Err(_) => {
            return None;
        },
    };
    let tc = chars_of(text.as_str());
    let mut k: usize = 0;
    while k < tc.len()
        invariant
            k <= tc@.len(),
            tc@ == text@,
            colon_from(text@, 0) == colon_from(text@, k as int),
        decreases tc.len() - k,
    {
        if tc[k] == ':' {
            let user = text.as_str().substring_char(0, k);
            let pass = text.as_str().substring_char(k + 1, tc.len());
            proof {
                assert(rest@ =~= header@.skip(6));
                assert(user@ =~= text@.take(k as int));
                assert(pass@ =~= text@.skip(k + 1));
            }
            return Some((user.to_owned(), pass.to_owned()));
        }
        k = k + 1;
    }
    proof {
        assert(rest@ =~= header@.skip(6));
    }
    None
}

/// Whether a request may pass: `GET /` always does, any other request
/// (another method on `/` among them) only with an `Authorization` header
/// carrying exactly the server's username and password.
pub open spec fn authorized_spec(method: Seq<char>, path: Seq<char>, header: Option<Seq<char>>, username: Seq<char>, password: Seq<char>) -> bool {
    (method == seq!['G', 'E', 'T'] && path == seq!['/']) || match header {
        Some(h) => match basic_credentials(h) {
            Some((u, p)) => u == username && p == password,
            None => false,
        },
        None => false,
    }
}

proof fn lemma_colon_after_colon_free(t: Seq<char>, n: int, i: int)
    requires
        0 <= i <= n < t.len(),
        t[n] == ':',
        forall|k: int| 0 <= k < n ==> t[k] != ':',
    ensures
        colon_from(t, i) == Some(n),
    decreases n - i,
{
    if i < n {
        lemma_colon_after_colon_free(t, n, i + 1);
    }
}

/// What a client sends is what is read: `"Basic "` followed by the base64
/// of the UTF-8 text `user:password`, where the username holds no colon,
/// carries exactly that username and password (the password may hold
/// colons and be of any length).
pub proof fn lemma_basic_credentials_read_back(h: Seq<char>, user: Seq<char>, password: Seq<char>)
    requires
        h.len() >= 6,
        h.take(6) == basic_prefix(),
        base64_standard_decode(encode_utf8(h.skip(6))) == Some(encode_utf8(user.push(':') + password)),
        forall|k: int| 0 <= k < user.len() ==> user[k] != ':',
    ensures
        basic_credentials(h) == Some((user, password)),
{
    broadcast use vstd::utf8::encode_utf8_valid_utf8, vstd::utf8::encode_utf8_decode_utf8;
    let t = user.push(':') + password;
    assert(decode_utf8(encode_utf8(t)) == t);
    let n = user.len() as int;
    assert(t[n] == ':');
    assert forall|k: int| 0 <= k < n implies t[k] != ':' by {
        assert(t[k] == user[k]);
    }
    lemma_colon_after_colon_free(t, n, 0);
    assert(t.take(n) =~= user);
    assert(t.skip(n + 1) =~= password);
}

/// A request carrying the server's own username and password is let
/// through, whatever the method, path or length of the password.
pub proof fn lemma_matching_credentials_pass(method: Seq<char>, path: Seq<char>, h: Seq<char>, username: Seq<char>, password: Seq<char>)
    requires
        basic_credentials(h) == Some((username, password)),
    ensures
        authorized_spec(method, path, Some(h), username, password),
{
}

/// Only `GET /` passes without credentials, and a request whose header
/// carries anything but the server's username and password is refused
/// (unless it is `GET /`).
pub proof fn lemma_other_requests_need_credentials(method: Seq<char>, path: Seq<char>, header: Option<Seq<char>>, username: Seq<char>, password: Seq<char>)
    requires
        !(method == seq!['G', 'E', 'T'] && path == seq!['/']),
    ensures
        header is None ==> !authorized_spec(method, path, header, username, password),
        (header matches Some(h) && basic_credentials(h) != Some((username, password)))
            ==> !authorized_spec(method, path, header, username, password),
        authorized_spec(method, path, header, username, password)
            ==> (header matches Some(h) && basic_credentials(h) == Some((username, password))),
{
}

/// `GET /` passes with or without credentials.
pub proof fn lemma_root_get_is_public(header: Option<Seq<char>>, username: Seq<char>, password: Seq<char>)
    ensures
        authorized_spec(seq!['G', 'E', 'T'], seq!['/'], header, username, password),
{
}

/// The authentication decision for a request with HTTP method `method` to
/// `path` with the given `Authorization` header value.
pub fn request_authorized(method: &str, path: &str, header: Option<&str>, creds: &Credentials) -> (r: bool)
    ensures
        r == authorized_spec(
            method@,
            path@,
            match header {
                Some(h) => Some(h@),
                None => None,
            },
            creds.username@,
            creds.password@,
        ),
{
    proof {
        reveal_strlit("/");
        reveal_strlit("GET");
        assert("/"@ =~= seq!['/']);
        assert("GET"@ =~= seq!['G', 'E', 'T']);
    }
    if crate::text::same_text(method, "GET") && crate::text::same_text(path, "/") {
        return true;
    }
    match header {
        None => false,
        Some(h) => match parse_basic_auth(h) {
            Some((user, pass)) => {
                let u_ok = constant_time_eq(user.as_str(), creds.username.as_str());
                let p_ok = constant_time_eq(pass.as_str(), creds.password.as_str());
                u_ok && p_ok
            },
            None => false,
        },
    }
}

} // verus!
