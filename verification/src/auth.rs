//! The bearer credential of a request and the account data around it.
//!
//! Issuing and checking the signed token itself is left to the caller; this
//! module holds what is decided before and after.

use crate::config::CustomError;
use vstd::prelude::*;
use vstd::std_specs::iter::IteratorSpec;
use vstd::string::StringExecFns;

verus! {

/// The claims that a token carries: whose it is, and until when it holds.
#[derive(Clone, Debug)]
pub struct Claims {
    pub id: String,
    pub exp: usize,
}

impl Claims {
    /// The moment at which a token issued at `now` for `expiry_seconds`
    /// runs out, in seconds since the epoch; `None` where that moment
    /// cannot be written down.
    pub open spec fn expiry(now: i64, expiry_seconds: i64) -> Option<usize> {
        if 0 <= now + expiry_seconds <= usize::MAX && now + expiry_seconds <= i64::MAX {
            Some((now + expiry_seconds) as usize)
        } else {
            None
        }
    }

    /// The claims of a token issued to `id` at `now`, seconds since the
    /// epoch, that holds for `expiry_seconds`.
    pub fn expiring(id: String, now: i64, expiry_seconds: i64) -> (r: Option<Claims>)
        ensures
            match r {
                Some(claims) => claims.id == id && Claims::expiry(now, expiry_seconds) == Some(
                    claims.exp,
                ),
                None => Claims::expiry(now, expiry_seconds) is None,
            },
    {
        match now.checked_add(expiry_seconds) {
            Some(at) => {
                if at < 0 {
                    return None;
                }
                if at as u64 > usize::MAX as u64 {
                    return None;
                }
                Some(Claims { id, exp: at as usize })
            },
            None => None,
        }
    }
}

/// The body of a login request.
#[derive(Clone, Debug)]
pub struct LoginInfo {
    pub email: String,
    pub password: String,
}

/// The body of a signup request, and the form in which an account is stored.
#[derive(Clone, Debug)]
pub struct AccountDetails {
    pub name: String,
    pub email: String,
    pub password: String,
}

/// What a successful login or signup answers with.
#[derive(Clone, Debug)]
pub struct ReturnedData {
    pub id: String,
    pub name: String,
    pub email: String,
    pub jwt: String,
}

/// The error of `bcrypt`, carried through unopened.
#[verifier::external_type_specification]
#[verifier::external_body]
pub struct ExBcryptError(bcrypt::BcryptError);

/// What `bcrypt` says of a password and a stored hash: whether they match,
/// or `None` where it cannot read the hash.
pub uninterp spec fn bcrypt_verdict(password: Seq<char>, hash: Seq<char>) -> Option<bool>;

/// Calls `bcrypt::verify`. Not proved: that the outcome depends on the
/// password and the hash alone, so that [`bcrypt_verdict`] can name it, with
/// an error of `bcrypt` standing for `None`.
#[verifier::external_body]
fn bcrypt_verify(password: &str, hash: &str) -> (r: Result<bool, bcrypt::BcryptError>)
    ensures
        match r {
            Ok(same) => bcrypt_verdict(password@, hash@) == Some(same),
            Err(_) => bcrypt_verdict(password@, hash@) is None,
        },
{
    bcrypt::verify(password, hash)
}

/// Calls `bcrypt::hash` at `bcrypt::DEFAULT_COST`. The salt is drawn at
/// random, so the hash itself has no name and success is not promised. Not
/// proved: that a hash which `bcrypt` makes of a password is one that
/// `bcrypt::verify` accepts for that same password.
#[verifier::external_body]
fn bcrypt_hash(password: &str) -> (r: Result<String, bcrypt::BcryptError>)
    ensures
        r matches Ok(hash) ==> bcrypt_verdict(password@, hash@) == Some(true),
{
    bcrypt::hash(password, bcrypt::DEFAULT_COST)
}

/// `pat` occurs somewhere in `s`.
pub open spec fn occurs_in(s: Seq<char>, pat: Seq<char>) -> bool {
    exists|i: int| 0 <= i && i + pat.len() <= s.len() && #[trigger] s.subrange(i, i + pat.len()) == pat
}

/// `s` with every match of the non-empty `pat` taken out, from the left.
pub open spec fn without(s: Seq<char>, pat: Seq<char>) -> Seq<char>
    decreases s.len(),
{
    if pat.len() == 0 || s.len() < pat.len() {
        s
    } else if s.subrange(0, pat.len() as int) == pat {
        without(s.skip(pat.len() as int), pat)
    } else {
        seq![s[0]] + without(s.skip(1), pat)
    }
}

/// The token that an `Authorization` header carries: the header with every
/// `"Bearer "` taken out, provided the header holds one and something is left.
pub open spec fn header_token(header: Seq<char>) -> Option<Seq<char>> {
    if occurs_in(header, "Bearer "@) && without(header, "Bearer "@).len() > 0 {
        Some(without(header, "Bearer "@))
    } else {
        None
    }
}

/// The characters of a string.
fn chars_of(s: &str) -> (v: Vec<char>)
    ensures
        v@ == s@,
{
    let n: usize = s.unicode_len();
    let mut it = s.chars();
    let mut v: Vec<char> = Vec::new();
    let mut i: usize = 0;
    loop
        invariant
            i <= n,
            n == s@.len(),
            it.remaining() == s@.skip(i as int),
            v@ == s@.take(i as int),
        decreases n - i,
    {
        match it.next() {
            Some(c) => {
                proof {
                    assert(s@.skip(i as int)[0] == s@[i as int]);
                    assert(s@.skip(i as int).drop_first() =~= s@.skip(i + 1));
                    assert(s@.take(i as int).push(c) =~= s@.take(i + 1));
                }
                v.push(c);
                i += 1;
            },
            None => {
                proof {
                    assert(s@.skip(i as int).len() == 0);
                    assert(s@.take(i as int) =~= s@);
                }
                return v;
            },
        }
    }
}

/// Whether `pat` stands in `s` at position `at`.
fn stands_at(s: &Vec<char>, at: usize, pat: &Vec<char>) -> (r: bool)
    requires
        at + pat@.len() <= s@.len(),
    ensures
        r == (s@.subrange(at as int, at + pat@.len()) == pat@),
{
    let len: usize = s.len();
    let mut k: usize = 0;
    while k < pat.len()
        invariant
            k <= pat@.len(),
            len == s@.len(),
            at + pat@.len() <= s@.len(),
            forall|j: int| 0 <= j < k ==> s@[at + j] == pat@[j],
        decreases pat@.len() - k,
    {
        if s[at + k] != pat[k] {
            proof {
                assert(s@.subrange(at as int, at + pat@.len())[k as int] != pat@[k as int]);
            }
            return false;
        }
        k += 1;
    }
    proof {
        assert(s@.subrange(at as int, at + pat@.len()) =~= pat@);
    }
    true
}

/// The token that an `Authorization` header carries, if any.
pub fn bearer_token(header: &str) -> (r: Option<String>)
    ensures
        match r {
            Some(token) => header_token(header@) == Some(token@),
            None => header_token(header@) is None,
        },
{
    proof {
        reveal_strlit("Bearer ");
    }
    let text = chars_of(header);
    let pat = chars_of("Bearer ");
    let n: usize = text.len();
    let m: usize = pat.len();
    let mut token = String::new();
    let mut found = false;
    let mut kept: usize = 0;
    let mut i: usize = 0;
    proof {
        assert(header@.skip(0) =~= header@);
        assert(token@ + header@.subrange(0, 0) =~= Seq::<char>::empty());
        assert(Seq::<char>::empty() + without(header@, pat@) =~= without(header@, pat@));
    }
    while n - i >= m
        invariant
            text@ == header@,
            pat@ == "Bearer "@,
            n == text@.len(),
            m == pat@.len(),
            m > 0,
            kept <= i <= n,
            without(header@, pat@) == token@ + header@.subrange(kept as int, i as int) + without(
                header@.skip(i as int),
                pat@,
            ),
            found ==> occurs_in(header@, pat@),
            !found ==> forall|j: int|
                0 <= j < i && j + m <= n ==> #[trigger] header@.subrange(j, j + m) != pat@,
        decreases n - i,
    {
        let ghost rest = header@.skip(i as int);
        proof {
            assert(rest.subrange(0, m as int) =~= header@.subrange(i as int, i + m));
        }
        if stands_at(&text, i, &pat) {
            token.append(header.substring_char(kept, i));
            proof {
                assert(rest.skip(m as int) =~= header@.skip(i + m));
                assert(header@.subrange(i + m, i + m) =~= Seq::<char>::empty());
            }
            found = true;
            i += m;
            kept = i;
        } else {
            proof {
                assert(rest.skip(1) =~= header@.skip(i + 1));
                assert(header@.subrange(kept as int, i as int) + seq![rest[0]]
                    =~= header@.subrange(kept as int, i + 1));
                assert(token@ + header@.subrange(kept as int, i as int) + (seq![rest[0]] + without(
                    rest.skip(1),
                    pat@,
                )) =~= token@ + header@.subrange(kept as int, i + 1) + without(
                    rest.skip(1),
                    pat@,
                ));
            }
            i += 1;
        }
    }
    token.append(header.substring_char(kept, n));
    proof {
        assert(header@.subrange(kept as int, i as int) + header@.skip(i as int)
            =~= header@.subrange(kept as int, n as int));
        assert(token@ =~= without(header@, pat@));
        if !found {
            assert forall|j: int| 0 <= j && j + m <= n implies #[trigger] header@.subrange(
                j,
                j + m,
            ) != pat@ by {}
        }
    }
    if found && token.as_str().unicode_len() > 0 {
        Some(token)
    } else {
        None
    }
}

/// The credential that travels with one request.
#[derive(Clone, Debug)]
pub struct AuthenticationData {
    jwt: String,
}

impl AuthenticationData {
    /// The token, empty where the request brought none.
    pub closed spec fn token_view(&self) -> Seq<char> {
        self.jwt@
    }

    /// No credential.
    pub fn new() -> (r: AuthenticationData)
        ensures
            r.token_view().len() == 0,
    {
        AuthenticationData { jwt: String::new() }
    }

    /// Replaces the token.
    pub fn update_token(&mut self, jwt: String)
        ensures
            final(self).token_view() == jwt@,
    {
        self.jwt = jwt;
    }

    /// The token, empty where the request brought none.
    pub fn token(&self) -> (r: &String)
        ensures
            r@ == self.token_view(),
    {
        &self.jwt
    }

    /// Whether a token is there to be checked at all.
    pub fn has_token(&self) -> (r: bool)
        ensures
            r == (self.token_view().len() > 0),
    {
        self.jwt.as_str().unicode_len() > 0
    }

    /// The credential of a request with this `Authorization` header. A
    /// request without a bearer token has none.
    pub fn from_header(authorization: Option<&str>) -> (r: AuthenticationData)
        ensures
            r.token_view() == match authorization {
                Some(header) => match header_token(header@) {
                    Some(token) => token,
                    None => Seq::<char>::empty(),
                },
                None => Seq::<char>::empty(),
            },
    {
        let mut data = AuthenticationData::new();
        match authorization {
            Some(header) => match bearer_token(header) {
                Some(token) => {
                    data.update_token(token);
                },
                None => {},
            },
            None => {},
        }
        data
    }
}

/// Makes the middleware that reads the credential of each request.
pub struct AuthenticationFactory {}

impl AuthenticationFactory {
    /// A factory. It holds nothing: each request is read by itself.
    pub fn new() -> (r: AuthenticationFactory) {
        AuthenticationFactory {}
    }

    /// Wraps a service.
    pub fn new_transform<S>(&self, service: S) -> (r: AuthenticationMiddleware<S>)
        ensures
            r.service == service,
    {
        AuthenticationMiddleware { service }
    }
}

/// A service together with the reading of credentials in front of it.
pub struct AuthenticationMiddleware<S> {
    pub service: S,
}

impl<S> AuthenticationMiddleware<S> {
    /// The credential to attach to a request before it is passed on.
    pub fn credential(&self, authorization: Option<&str>) -> (r: AuthenticationData)
        ensures
            r.token_view() == match authorization {
                Some(header) => match header_token(header@) {
                    Some(token) => token,
                    None => Seq::<char>::empty(),
                },
                None => Seq::<char>::empty(),
            },
    {
        AuthenticationData::from_header(authorization)
    }
}

/// The identity of the caller, once the credential has been accepted.
#[derive(Clone, Debug)]
pub struct AuthenticationExtractor(pub String);

impl AuthenticationExtractor {
    /// Lets a request through or turns it away. `id` is the identity that the token of the request
    /// was found to carry, `None` where the request had no credential or the
    /// token did not hold.
    pub fn from_identity(id: Option<String>) -> (r: Result<AuthenticationExtractor, CustomError>)
        ensures
            match r {
                Ok(who) => id == Some(who.0),
                Err(e) => id is None && e == CustomError::JWTError,
            },
    {
        match id {
            Some(id) => Ok(AuthenticationExtractor(id)),
            None => Err(CustomError::JWTError),
        }
    }

    /// The identity of the caller.
    pub fn id(&self) -> (r: &String)
        ensures
            *r == self.0,
    {
        &self.0
    }
}

/// Whether a login goes through: the account was found and `bcrypt` says the
/// password matches its stored hash.
pub open spec fn login_allowed(found: bool, verdict: Option<bool>) -> bool {
    found && verdict == Some(true)
}

/// Decides a login from what the lookup and the comparison gave.
pub fn judge_login(found: bool, verdict: Option<bool>) -> (r: Result<(), CustomError>)
    ensures
        r is Ok <==> login_allowed(found, verdict),
        r matches Err(e) ==> e == CustomError::LoginError,
{
    match verdict {
        Some(same) => if found && same {
            Ok(())
        } else {
            Err(CustomError::LoginError)
        },
        None => Err(CustomError::LoginError),
    }
}

/// Checks a login against the stored hash of the account, `None` where no
/// account has the e-mail address.
pub fn check_login(stored_hash: Option<&str>, password: &str) -> (r: Result<(), CustomError>)
    ensures
        r is Ok <==> (stored_hash matches Some(hash) && bcrypt_verdict(password@, hash@) == Some(
            true,
        )),
        r matches Err(e) ==> e == CustomError::LoginError,
{
    match stored_hash {
        Some(hash) => {
            let verdict = match bcrypt_verify(password, hash) {
                Ok(same) => Some(same),
                Err(_) => None,
            };
            judge_login(true, verdict)
        },
        None => judge_login(false, None),
    }
}

impl AccountDetails {
    /// The account with `hash` in the place of the password; `None` where
    /// there is no hash.
    pub fn stored_with(&self, hash: Option<String>) -> (r: Option<AccountDetails>)
        ensures
            match r {
                Some(stored) => stored.name@ == self.name@ && stored.email@ == self.email@
                    && hash == Some(stored.password),
                None => hash is None,
            },
    {
        match hash {
            Some(hash) => Some(
                AccountDetails {
                    name: self.name.clone(),
                    email: self.email.clone(),
                    password: hash,
                },
            ),
            None => None,
        }
    }

    /// The account as it is stored: name and address as they are, and in the
    /// place of the password a salted hash of it, one that a later login with
    /// that password is checked against with success. `None` where no hash
    /// could be made.
    pub fn secured(&self) -> (r: Option<AccountDetails>)
        ensures
            r matches Some(stored) ==> stored.name@ == self.name@ && stored.email@ == self.email@
                && bcrypt_verdict(self.password@, stored.password@) == Some(true),
    {
        let hash = match bcrypt_hash(self.password.as_str()) {
            Ok(hash) => Some(hash),
            Err(_) => None,
        };
        self.stored_with(hash)
    }
}

} // verus!
