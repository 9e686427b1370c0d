//! Access tokens: what is asked for, what is signed, and when a token that
//! was minted before may still be used.

use vstd::prelude::*;
use crate::text::{distinct, join, joined, strs};

verus! {

/// The number of seconds that a token lives where nothing else is asked.
pub const DEFAULT_LIFETIME: i64 = 3600;

/// A token is taken as expired this many seconds before it expires.
pub const EXPIRY_MARGIN: i64 = 10;

/// What a token is asked for: the permissions, and for how long.
pub struct Scope {
    lifetime: i64,
    scopes: Vec<String>,
}

/// The mathematical value of a [`Scope`]: the lifetime in seconds, and the
/// permissions in the order in which they were first asked for.
pub struct ScopeView {
    pub lifetime: int,
    pub scopes: Seq<Seq<char>>,
}

/// The texts with one more, unless it is among them already.
pub open spec fn with_text(texts: Seq<Seq<char>>, text: Seq<char>) -> Seq<Seq<char>> {
    if texts.contains(text) {
        texts
    } else {
        texts.push(text)
    }
}

impl View for Scope {
    type V = ScopeView;

    closed spec fn view(&self) -> ScopeView {
        ScopeView { lifetime: self.lifetime as int, scopes: strs(self.scopes@) }
    }
}

impl Scope {
    /// The invariant of a scope: no permission occurs twice.
    pub open spec fn wf(&self) -> bool {
        distinct(self@.scopes) && i64::MIN <= self@.lifetime <= i64::MAX
    }

    /// Starts a scope with the default lifetime and no permission.
    pub fn builder() -> (r: ScopeBuilder)
        ensures
            r@ == (ScopeView { lifetime: DEFAULT_LIFETIME as int, scopes: Seq::empty() }),
            r.wf(),
    {
        ScopeBuilder(Scope::default())
    }

    /// The lifetime that is asked for, in seconds.
    pub fn lifetime(&self) -> (r: i64)
        ensures
            r == self@.lifetime,
    {
        self.lifetime
    }

    /// The permissions as one text, with a space between each two.
    pub fn joined(&self) -> (r: String)
        ensures
            r@ == joined(self@.scopes, seq![' ']),
    {
        proof {
            reveal_strlit(" ");
            assert(" "@ =~= seq![' ']);
        }
        join(&self.scopes, " ")
    }
}

impl Default for Scope {
    fn default() -> (r: Scope)
        ensures
            r@ == (ScopeView { lifetime: DEFAULT_LIFETIME as int, scopes: Seq::empty() }),
            r.wf(),
    {
        let r = Scope { lifetime: DEFAULT_LIFETIME, scopes: Vec::new() };
        proof {
            assert(r@.scopes =~= Seq::empty());
        }
        r
    }
}

/// A scope that is being put together.
pub struct ScopeBuilder(Scope);

impl View for ScopeBuilder {
    type V = ScopeView;

    closed spec fn view(&self) -> ScopeView {
        self.0@
    }
}

impl ScopeBuilder {
    /// The invariant of the scope that is being put together.
    pub closed spec fn wf(&self) -> bool {
        self.0.wf()
    }

    /// The scope as it was put together.
    pub fn build(self) -> (r: Scope)
        requires
            self.wf(),
        ensures
            r@ == self@,
            r.wf(),
    {
        self.0
    }

    /// Asks for one more permission. Asking twice is asking once.
    pub fn scope(self, scope: &str) -> (r: ScopeBuilder)
        requires
            self.wf(),
        ensures
            r@ == (ScopeView { scopes: with_text(self@.scopes, scope@), ..self@ }),
            r.wf(),
    {
        let mut inner = self.0;
        let text = scope.to_owned();
        let mut i: usize = 0;
        while i < inner.scopes.len()
            invariant
                i <= inner.scopes.len(),
                inner == self.0,
                self.wf(),
                text@ == scope@,
                forall|k: int| 0 <= k < i ==> strs(inner.scopes@)[k] != text@,
            decreases inner.scopes.len() - i,
        {
            if inner.scopes[i] == text {
                proof {
                    assert(strs(inner.scopes@)[i as int] == text@);
                }
                return ScopeBuilder(inner);
            }
            i += 1;
        }
        let ghost before = strs(inner.scopes@);
        inner.scopes.push(text);
        proof {
            assert(strs(inner.scopes@) =~= before.push(scope@));
        }
        ScopeBuilder(inner)
    }

    /// Asks for a lifetime, in seconds.
    pub fn lifetime(self, lifetime: i64) -> (r: ScopeBuilder)
        requires
            self.wf(),
        ensures
            r@ == (ScopeView { lifetime: lifetime as int, ..self@ }),
            r.wf(),
    {
        let mut inner = self.0;
        inner.lifetime = lifetime;
        ScopeBuilder(inner)
    }
}

/// The claim set that is signed to ask for a token. Times are seconds since
/// the start of 1970.
#[derive(Debug)]
pub struct Claims {
    pub iss: String,
    pub scope: String,
    pub aud: String,
    pub exp: i64,
    pub iat: i64,
}

/// The mathematical value of [`Claims`].
pub struct ClaimsView {
    pub iss: Seq<char>,
    pub scope: Seq<char>,
    pub aud: Seq<char>,
    pub exp: int,
    pub iat: int,
}

impl View for Claims {
    type V = ClaimsView;

    open spec fn view(&self) -> ClaimsView {
        ClaimsView {
            iss: self.iss@,
            scope: self.scope@,
            aud: self.aud@,
            exp: self.exp as int,
            iat: self.iat as int,
        }
    }
}

/// The claim set of the issuer `iss` for a scope, issued at `iat`: for the
/// token endpoint as audience, with the permissions joined by spaces, and
/// expiring when the lifetime of the scope is over.
pub open spec fn claims_at(iss: Seq<char>, scope: ScopeView, iat: int) -> ClaimsView {
    ClaimsView {
        iss,
        scope: joined(scope.scopes, seq![' ']),
        aud: TOKEN_URL@,
        exp: iat + scope.lifetime,
        iat,
    }
}

/// The earliest time that the clock can show, in seconds since the start
/// of 1970: the first second of the earliest day that has a 32-bit number.
/// The first day of 1970 has the number 719163.
pub open spec fn clock_min() -> int {
    (i32::MIN - 719_163) * 86_400
}

/// The latest time that the clock can show, in seconds since the start of
/// 1970: the start of the latest day that has a 32-bit number, and as many
/// seconds more as fit in 32 bits.
pub open spec fn clock_max() -> int {
    (i32::MAX - 719_163) * 86_400 + u32::MAX
}

/// Whether the clock can show the time `t`.
pub open spec fn on_clock(t: int) -> bool {
    clock_min() <= t <= clock_max()
}

/// The time now, in seconds since the start of 1970.
///
/// Trusted: this is `chrono::Utc::now` followed by `DateTime::timestamp`.
/// Of the value only its range is claimed: `timestamp` makes it of a
/// 32-bit number of days, less the 719163 days before 1970, times the
/// 86400 seconds of a day, and of a 32-bit number of seconds. Within that
/// range two calls may give any two numbers. chrono does not accept a
/// system clock that is set before 1970.
#[verifier::external_body]
pub(crate) fn now() -> (r: i64)
    ensures
        on_clock(r as int),
{
    chrono::Utc::now().timestamp()
}

/// Whether `r` is what issuing a claim set at `iat` gives: the claims of
/// [`claims_at`], or nothing where the expiry would not fit in 64 bits.
pub open spec fn issued_at(r: Option<Claims>, iss: Seq<char>, scope: ScopeView, iat: int) -> bool {
    match r {
        Some(claims) => claims@ == claims_at(iss, scope, iat),
        None => !(i64::MIN <= iat + scope.lifetime <= i64::MAX),
    }
}

/// Whether a claim set with this lifetime can be issued at every time
/// that the clock can show: its expiry always fits in 64 bits.
pub open spec fn always_issuable(lifetime: int) -> bool {
    i64::MIN - clock_min() <= lifetime <= i64::MAX - clock_max()
}

impl Claims {
    /// The claim set issued at `iat`, or `None` where the expiry would not
    /// fit in 64 bits.
    pub fn at(iss: &str, scope: &Scope, iat: i64) -> (r: Option<Claims>)
        ensures
            match r {
                Some(claims) => claims@ == claims_at(iss@, scope@, iat as int),
                None => !(i64::MIN <= iat + scope@.lifetime <= i64::MAX),
            },
    {
        match iat.checked_add(scope.lifetime()) {
            Some(exp) => Some(
                Claims {
                    aud: TOKEN_URL.to_owned(),
                    scope: scope.joined(),
                    exp,
                    iat,
                    iss: iss.to_owned(),
                },
            ),
            None => None,
        }
    }

    /// The claim set issued now, or `None` where the expiry would not fit
    /// in 64 bits. The result is what [`Claims::at`] gives for the time that
    /// the clock shows. So the claims are those of [`claims_at`] for the
    /// time at which they were issued, and a claim set is owed wherever the
    /// lifetime of the scope fits with every time of the clock, as every
    /// lifetime of a token does.
    pub fn new(iss: &str, scope: &Scope) -> (r: Option<Claims>)
        ensures
            exists|iat: int| on_clock(iat) && #[trigger] issued_at(r, iss@, scope@, iat),
            r matches Some(claims) ==> on_clock(claims@.iat) && claims@ == claims_at(
                iss@,
                scope@,
                claims@.iat,
            ),
            always_issuable(scope@.lifetime) ==> r is Some,
    {
        let iat = now();
        let r = Claims::at(iss, scope, iat);
        proof {
            assert(issued_at(r, iss@, scope@, iat as int));
        }
        r
    }
}

/// Where a signed claim set is exchanged for a token.
pub const TOKEN_URL: &'static str = "https://oauth2.googleapis.com/token";

/// The kind of grant that a signed claim set is.
pub const GRANT_TYPE: &'static str = "urn:ietf:params:oauth:grant-type:jwt-bearer";

/// The form that is sent to exchange a signed claim set for a token.
#[derive(Debug)]
pub struct Form {
    pub grant_type: String,
    pub assertion: String,
}

impl Form {
    /// The form for a signed claim set.
    pub fn new(jwt: &str) -> (r: Form)
        ensures
            r.grant_type@ == GRANT_TYPE@,
            r.assertion@ == jwt@,
    {
        Form { assertion: jwt.to_owned(), grant_type: GRANT_TYPE.to_owned() }
    }
}

/// The answer of the token endpoint.
#[derive(Debug)]
pub struct Response {
    pub access_token: String,
}

impl AccessToken {
    /// The token that the endpoint gave for a claim set: it expires when
    /// the claims do.
    pub fn minted(claims: &Claims, response: Response) -> (r: AccessToken)
        ensures
            r@ == (AccessTokenView { expiry: claims@.exp, token: response.access_token@ }),
    {
        AccessToken { token: response.access_token, expiry: claims.exp }
    }
}

/// A token and the time at which it expires, in seconds since the start of
/// 1970.
#[derive(Debug)]
pub struct AccessToken {
    pub expiry: i64,
    pub token: String,
}

/// The mathematical value of an [`AccessToken`].
pub struct AccessTokenView {
    pub expiry: int,
    pub token: Seq<char>,
}

impl Clone for AccessToken {
    fn clone(&self) -> (r: Self)
        ensures
            r == *self,
    {
        AccessToken { expiry: self.expiry, token: self.token.clone() }
    }
}

impl View for AccessToken {
    type V = AccessTokenView;

    open spec fn view(&self) -> AccessTokenView {
        AccessTokenView { expiry: self.expiry as int, token: self.token@ }
    }
}

/// Whether a token may still be used at `now`: it expires more than the
/// margin after `now`.
pub open spec fn usable_at(token: AccessTokenView, now: int) -> bool {
    token.expiry > now + EXPIRY_MARGIN
}

/// What a cache hands out at `now`: the token that it holds, if that may
/// still be used; nothing where a new token has to be minted.
pub open spec fn cached_at(cache: RefreshTokenView, now: int) -> Option<AccessTokenView> {
    match cache.token {
        Some(t) => if usable_at(t, now) {
            Some(t)
        } else {
            None
        },
        None => None,
    }
}

/// Whether the cache holds a token that may be used at every time that the
/// clock can show.
pub open spec fn outlasts_clock(cache: RefreshTokenView) -> bool {
    cache.token matches Some(t) && t.expiry > clock_max() + EXPIRY_MARGIN
}

/// Whether the cache holds a token that may be used at no time that the
/// clock can show.
pub open spec fn expired_before_clock(cache: RefreshTokenView) -> bool {
    cache.token matches Some(t) && t.expiry <= clock_min() + EXPIRY_MARGIN
}

/// The value of a token that may be there.
pub open spec fn token_view(token: Option<AccessToken>) -> Option<AccessTokenView> {
    match token {
        Some(t) => Some(t@),
        None => None,
    }
}

/// The cache of the token of one scope. It holds the token that was minted
/// last, if any.
pub struct RefreshToken {
    scope: Scope,
    token: Option<AccessToken>,
}

/// The mathematical value of a [`RefreshToken`].
pub struct RefreshTokenView {
    pub scope: ScopeView,
    pub token: Option<AccessTokenView>,
}

impl View for RefreshToken {
    type V = RefreshTokenView;

    closed spec fn view(&self) -> RefreshTokenView {
        RefreshTokenView {
            scope: self.scope@,
            token: match self.token {
                Some(t) => Some(t@),
                None => None,
            },
        }
    }
}

impl RefreshToken {
    /// The invariant of the cache: that of its scope.
    pub closed spec fn wf(&self) -> bool {
        self.scope.wf()
    }

    /// A cache without a token.
    pub fn new(scope: Scope) -> (r: RefreshToken)
        requires
            scope.wf(),
        ensures
            r@ == (RefreshTokenView { scope: scope@, token: None }),
            r.wf(),
    {
        RefreshToken { token: None, scope }
    }

    /// The scope that the tokens of this cache are for.
    pub fn scope(&self) -> (r: &Scope)
        requires
            self.wf(),
        ensures
            r@ == self@.scope,
            r.wf(),
    {
        &self.scope
    }

    /// The cached token, if it may still be used at `now`; `None` where a
    /// new token has to be minted.
    pub fn access_token_at(&self, now: i64) -> (r: Option<AccessToken>)
        ensures
            match self@.token {
                Some(t) => if usable_at(t, now as int) {
                    r matches Some(token) && token@ == t
                } else {
                    r is None
                },
                None => r is None,
            },
    {
        match &self.token {
            Some(token) => {
                if now <= i64::MAX - EXPIRY_MARGIN && token.expiry > now + EXPIRY_MARGIN {
                    Some(token.clone())
                } else {
                    None
                }
            },
            None => None,
        }
    }

    /// The cached token, if it may still be used now; `None` where a new
    /// token has to be minted. The result is what [`Self::access_token_at`]
    /// gives for the time that the clock shows. So a token that comes back
    /// is the cached one; a cached token that expires after every time of
    /// the clock is handed out; and nothing comes back from an empty cache,
    /// nor of a token that had expired before the clock began.
    pub fn access_token(&self) -> (r: Option<AccessToken>)
        ensures
            exists|now: int| on_clock(now) && token_view(r) == #[trigger] cached_at(self@, now),
            r matches Some(token) ==> self@.token == Some(token@),
            outlasts_clock(self@) ==> token_view(r) == self@.token,
            self@.token is None || expired_before_clock(self@) ==> r is None,
    {
        let now = now();
        let r = self.access_token_at(now);
        proof {
            assert(token_view(r) == cached_at(self@, now as int));
        }
        r
    }

    /// Puts a token that was minted into the cache, in place of the one
    /// before.
    pub fn refresh(&mut self, token: AccessToken)
        requires
            old(self).wf(),
        ensures
            final(self)@ == (RefreshTokenView { token: Some(token@), ..old(self)@ }),
            final(self).wf(),
    {
        self.token = Some(token);
    }
}

} // verus!
