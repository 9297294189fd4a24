//! Who may see the web dashboard: bearer tokens and roles.
//!
//! Both tokens are optional, and without one everything is open. With one,
//! every page but the health probe asks for `Authorization: Bearer <token>`, or
//! for a `token` query parameter where no header can be set.
use crate::base::path;
use crate::base::text;
use vstd::prelude::*;
use vstd::string::*;

verus! {

/// Where the certificate and the private key of an HTTPS server are.
#[derive(Debug, PartialEq, Eq)]
pub struct TlsConfig {
    /// Path of the PEM certificate chain.
    pub cert: String,
    /// Path of the PEM private key.
    pub key: String,
}

/// What a token grants. An admin may do whatever a viewer may.
#[derive(Debug, Clone, Copy, PartialEq, Eq, PartialOrd, Ord, Structural)]
pub enum Role {
    /// Read a single run's live dashboard.
    Viewer,
    /// That, and the dashboard over all runs of a project.
    Admin,
}

/// Optional dashboard security: tokens by role, and TLS.
#[derive(Debug, PartialEq, Eq)]
pub struct WebSecurity {
    /// Full-access token.
    pub token: Option<String>,
    /// Read-only token.
    pub viewer_token: Option<String>,
    /// Serve HTTPS with this certificate and key.
    pub tls: Option<TlsConfig>,
}

impl Default for WebSecurity {
    fn default() -> (s: WebSecurity)
        ensures
            s.token is None,
            s.viewer_token is None,
            s.tls is None,
    {
        WebSecurity { token: None, viewer_token: None, tls: None }
    }
}

/// The configured tokens, and the role that a server asks for.
#[derive(Debug)]
pub struct AuthState {
    pub admin: Option<String>,
    pub viewer: Option<String>,
    pub min_role: Role,
}

/// What becomes of a request.
#[derive(Debug, Clone, Copy, PartialEq, Eq, Structural)]
pub enum Access {
    /// It is served.
    Granted,
    /// No known token was presented: status 401.
    Unauthorized,
    /// The token's role is too low: status 403.
    Forbidden,
}

/// Whether `role` is at least `min`.
pub open spec fn outranks(role: Role, min: Role) -> bool {
    role == Role::Admin || min == Role::Viewer
}

/// Whether a configured token is the presented one.
pub open spec fn matches_token(token: Option<String>, presented: Seq<char>) -> bool {
    token matches Some(t) && t@ == presented
}

impl AuthState {
    /// The role that a presented token grants.
    pub open spec fn granted(self, presented: Seq<char>) -> Option<Role> {
        if matches_token(self.admin, presented) {
            Some(Role::Admin)
        } else if matches_token(self.viewer, presented) {
            Some(Role::Viewer)
        } else {
            None
        }
    }

    /// What becomes of a request for `path` that presents `token`.
    pub open spec fn verdict(self, path: Seq<char>, token: Option<Seq<char>>) -> Access {
        if path == "/healthz"@ {
            Access::Granted
        } else {
            match token {
                None => Access::Unauthorized,
                Some(t) => match self.granted(t) {
                    None => Access::Unauthorized,
                    Some(role) => if outranks(role, self.min_role) {
                        Access::Granted
                    } else {
                        Access::Forbidden
                    },
                },
            }
        }
    }
}

/// Byte-slice equality that looks at every byte whatever it finds, so that the
/// time it takes tells nothing about where two tokens differ.
pub fn ct_eq(a: &[u8], b: &[u8]) -> (r: bool)
    ensures
        r == (a@ == b@),
{
    if a.len() != b.len() {
        return false;
    }
    let mut diff: u8 = 0;
    let mut i: usize = 0;
    assert(a@.take(0) =~= b@.take(0));
    while i < a.len()
        invariant
            i <= a@.len() == b@.len(),
            diff == 0 <==> a@.take(i as int) == b@.take(i as int),
        decreases a.len() - i,
    {
        let x: u8 = a[i];
        let y: u8 = b[i];
        let ghost before = diff;
        diff = diff | (x ^ y);
        proof {
            assert((before | (x ^ y)) == 0 <==> before == 0 && x == y) by (bit_vector);
            assert(a@.take(i + 1) == a@.take(i as int).push(x));
            assert(b@.take(i + 1) == b@.take(i as int).push(y));
            if a@.take(i + 1) == b@.take(i + 1) {
                assert(a@.take(i + 1).drop_last() == a@.take(i as int));
                assert(b@.take(i + 1).drop_last() == b@.take(i as int));
                assert(a@.take(i + 1).last() == b@.take(i + 1).last());
            }
        }
        i = i + 1;
    }
    assert(a@.take(a@.len() as int) == a@);
    assert(b@.take(b@.len() as int) == b@);
    diff == 0
}

fn same_token(presented: &str, token: &str) -> (r: bool)
    ensures
        r == (presented@ == token@),
{
    proof {
        vstd::utf8::encode_utf8_decode_utf8(presented@);
        vstd::utf8::encode_utf8_decode_utf8(token@);
    }
    ct_eq(presented.as_bytes(), token.as_bytes())
}

/// The pairs that a query string holds, each percent-decoded.
pub uninterp spec fn form_pairs(query: Seq<u8>) -> Seq<(Seq<char>, Seq<char>)>;

/// The views of key and value pairs.
pub open spec fn pair_views(pairs: Seq<(String, String)>) -> Seq<(Seq<char>, Seq<char>)> {
    Seq::new(pairs.len(), |i: int| (pairs[i].0@, pairs[i].1@))
}

/// `form_urlencoded::parse`: the key and value pairs of a query string, in
/// order. The pairs depend on the bytes alone; what they are is left to the
/// name `form_pairs`.
#[verifier::external_body]
fn query_pairs(query: &[u8]) -> (r: Vec<(String, String)>)
    ensures
        pair_views(r@) == form_pairs(query@),
{
    form_urlencoded::parse(query).into_owned().collect()
}

/// The value of the first `token` pair from `i` on.
pub open spec fn token_in(pairs: Seq<(Seq<char>, Seq<char>)>, i: int) -> Option<Seq<char>>
    decreases pairs.len() - i,
{
    if i >= pairs.len() {
        None
    } else if pairs[i].0 == "token"@ {
        Some(pairs[i].1)
    } else {
        token_in(pairs, i + 1)
    }
}

/// The view of an optional string.
pub open spec fn text_view(s: Option<String>) -> Option<Seq<char>> {
    match s {
        Some(t) => Some(t@),
        None => None,
    }
}

/// The value of the first pair whose key is `token`.
pub fn find_token(pairs: &Vec<(String, String)>) -> (r: Option<String>)
    ensures
        text_view(r) == token_in(pair_views(pairs@), 0),
{
    let ghost views = pair_views(pairs@);
    let mut i: usize = 0;
    while i < pairs.len()
        invariant
            i <= pairs@.len(),
            views == pair_views(pairs@),
            token_in(views, 0) == token_in(views, i as int),
        decreases pairs.len() - i,
    {
        if text::same(pairs[i].0.as_str(), "token") {
            return Some(pairs[i].1.clone());
        }
        i = i + 1;
    }
    None
}

/// The token of an `Authorization` header.
pub open spec fn bearer(header: Seq<char>) -> Option<Seq<char>> {
    if header.len() >= 7 && header.take(7) == "Bearer "@ {
        Some(header.skip(7))
    } else {
        None
    }
}

/// The token that a request presents: that of its `Authorization` header, else
/// that of its query string.
pub open spec fn presented(header: Option<&str>, query: Option<&str>) -> Option<Seq<char>> {
    let from_header = match header {
        Some(h) => bearer(h@),
        None => None,
    };
    match from_header {
        Some(t) => Some(t),
        None => match query {
            Some(q) => token_in(form_pairs(vstd::utf8::encode_utf8(q@)), 0),
            None => None,
        },
    }
}

fn bearer_token(header: &str) -> (r: Option<String>)
    ensures
        text_view(r) == bearer(header@),
{
    let cs = text::chars_of(header);
    proof {
        reveal_strlit("Bearer ");
    }
    if cs.len() >= 7 && cs[0] == 'B' && cs[1] == 'e' && cs[2] == 'a' && cs[3] == 'r' && cs[4] == 'e'
        && cs[5] == 'r' && cs[6] == ' ' {
        assert(cs@.take(7) =~= "Bearer "@);
        assert(cs@.subrange(7, cs@.len() as int) == cs@.skip(7));
        Some(text::string_of(&path::copy_chars(&cs, 7, cs.len())))
    } else {
        proof {
            if cs@.len() >= 7 && cs@.take(7) == "Bearer "@ {
                assert(forall|i: int| 0 <= i < 7 ==> cs@[i] == cs@.take(7)[i]);
            }
        }
        None
    }
}

/// The token that a request presents.
///
/// `authorization` is the header of that name where it is visible ASCII, and
/// `query` the part of the address after `?`. A header of another scheme is
/// passed over; a WebSocket upgrade, which can set no header, uses the query.
pub fn presented_token(authorization: Option<&str>, query: Option<&str>) -> (r: Option<String>)
    ensures
        text_view(r) == presented(authorization, query),
{
    match authorization {
        Some(h) => {
            match bearer_token(h) {
                Some(t) => {
                    return Some(t);
                },
                None => {},
            }
        },
        None => {},
    }
    match query {
        Some(q) => find_token(&query_pairs(q.as_bytes())),
        None => None,
    }
}

impl AuthState {
    /// The role that a presented token grants, if any.
    pub fn role_of(&self, presented: &str) -> (r: Option<Role>)
        ensures
            r == self.granted(presented@),
    {
        match &self.admin {
            Some(admin) => {
                if same_token(presented, admin.as_str()) {
                    return Some(Role::Admin);
                }
            },
            None => {},
        }
        match &self.viewer {
            Some(viewer) => {
                if same_token(presented, viewer.as_str()) {
                    return Some(Role::Viewer);
                }
            },
            None => {},
        }
        None
    }

    /// What becomes of a request for `path` that presents `token`.
    pub fn decide(&self, path: &str, token: Option<String>) -> (r: Access)
        ensures
            r == self.verdict(path@, text_view(token)),
    {
        if text::same(path, "/healthz") {
            return Access::Granted;
        }
        let role: Option<Role> = match token {
            Some(t) => self.role_of(t.as_str()),
            None => None,
        };
        match role {
            None => Access::Unauthorized,
            Some(Role::Admin) => Access::Granted,
            Some(Role::Viewer) => match self.min_role {
                Role::Viewer => Access::Granted,
                Role::Admin => Access::Forbidden,
            },
        }
    }

    /// What becomes of a request: the health probe is open; otherwise the
    /// presented token has to grant the role that the server asks for.
    pub fn require_role(&self, path: &str, authorization: Option<&str>, query: Option<&str>) -> (r:
        Access)
        ensures
            r == self.verdict(path@, presented(authorization, query)),
    {
        self.decide(path, presented_token(authorization, query))
    }
}

/// A copy of an optional string.
fn copy_text(s: &Option<String>) -> (r: Option<String>)
    ensures
        r == *s,
{
    match s {
        Some(t) => Some(t.clone()),
        None => None,
    }
}

impl WebSecurity {
    /// Who may use a server that asks for at least `min_role`; nothing to decide
    /// when no token is configured, and the server is open.
    pub fn apply(&self, min_role: Role) -> (r: Option<AuthState>)
        ensures
            r is None <==> self.token is None && self.viewer_token is None,
            r matches Some(auth) ==> auth.admin == self.token && auth.viewer == self.viewer_token
                && auth.min_role == min_role,
    {
        if self.token.is_none() && self.viewer_token.is_none() {
            return None;
        }
        Some(
            AuthState {
                admin: copy_text(&self.token),
                viewer: copy_text(&self.viewer_token),
                min_role,
            },
        )
    }
}

/// The health probe is open to everyone.
pub proof fn health_probe_is_open(auth: AuthState, token: Option<Seq<char>>)
    ensures
        auth.verdict("/healthz"@, token) == Access::Granted,
{
}

/// A token that is not configured is answered 401, whatever page it asks for.
pub proof fn unknown_tokens_are_unauthorized(auth: AuthState, path: Seq<char>, token: Option<Seq<char>>)
    requires
        path != "/healthz"@,
        token matches Some(t) ==> !matches_token(auth.admin, t) && !matches_token(auth.viewer, t),
    ensures
        auth.verdict(path, token) == Access::Unauthorized,
{
}

/// The admin token opens every page of every server.
pub proof fn admins_pass_everywhere(auth: AuthState, path: Seq<char>, token: Seq<char>)
    requires
        matches_token(auth.admin, token),
    ensures
        auth.verdict(path, Some(token)) == Access::Granted,
{
}

/// A token that is only the viewer's opens a server that asks for a viewer, and
/// is answered 403 by one that asks for an admin.
pub proof fn viewers_stay_below_admins(auth: AuthState, path: Seq<char>, token: Seq<char>)
    requires
        path != "/healthz"@,
        matches_token(auth.viewer, token),
        !matches_token(auth.admin, token),
    ensures
        auth.min_role == Role::Viewer ==> auth.verdict(path, Some(token)) == Access::Granted,
        auth.min_role == Role::Admin ==> auth.verdict(path, Some(token)) == Access::Forbidden,
{
}

/// Asking for more never opens a page: what an admin's server grants, a
/// viewer's server with the same tokens grants too.
pub proof fn access_grows_with_lower_demands(
    strict: AuthState,
    lax: AuthState,
    path: Seq<char>,
    token: Option<Seq<char>>,
)
    requires
        strict.admin == lax.admin,
        strict.viewer == lax.viewer,
        outranks(strict.min_role, lax.min_role),
        strict.verdict(path, token) == Access::Granted,
    ensures
        lax.verdict(path, token) == Access::Granted,
{
}

/// The token of a query is the value of its first `token` pair.
pub proof fn the_first_token_pair_counts(pairs: Seq<(Seq<char>, Seq<char>)>, i: int)
    requires
        0 <= i <= pairs.len(),
    ensures
        token_in(pairs, i) is None <==> forall|j: int|
            i <= j < pairs.len() ==> (#[trigger] pairs[j]).0 != "token"@,
        forall|j: int|
            i <= j < pairs.len() && (#[trigger] pairs[j]).0 == "token"@ && (forall|k: int|
                i <= k < j ==> (#[trigger] pairs[k]).0 != "token"@) ==> token_in(pairs, i) == Some(
                pairs[j].1,
            ),
    decreases pairs.len() - i,
{
    if i < pairs.len() {
        the_first_token_pair_counts(pairs, i + 1);
        if pairs[i].0 != "token"@ {
            assert forall|j: int|
                i <= j < pairs.len() && (#[trigger] pairs[j]).0 == "token"@ && (forall|k: int|
                    i <= k < j ==> (#[trigger] pairs[k]).0 != "token"@) implies token_in(pairs, i)
                == Some(pairs[j].1) by {
                assert(j >= i + 1);
            }
        }
    }
}

/// A header presents whatever follows `Bearer` and a blank, exactly.
pub proof fn bearers_present_their_token(header: Seq<char>, token: Seq<char>)
    ensures
        bearer("Bearer "@ + token) == Some(token),
        bearer(header) == Some(token) ==> header == "Bearer "@ + token,
        bearer(header) is None <==> !("Bearer "@).is_prefix_of(header),
{
    reveal_strlit("Bearer ");
    let whole = "Bearer "@ + token;
    assert(whole.take(7) =~= "Bearer "@);
    assert(whole.skip(7) =~= token);
    if header.len() >= 7 {
        assert(header =~= header.take(7) + header.skip(7));
        assert(header.subrange(0, 7) =~= header.take(7));
    }
}

/// A bearer header is presented whatever the query says; without one the query's token
/// is; and a request with neither presents nothing.
pub proof fn headers_come_before_queries(header: Option<&str>, query: Option<&str>)
    ensures
        header matches Some(h) && bearer(h@) is Some ==> presented(header, query) == bearer(
            (header->0)@,
        ),
        (header matches Some(h) ==> bearer(h@) is None) && query is Some ==> presented(
            header,
            query,
        ) == token_in(form_pairs(vstd::utf8::encode_utf8((query->0)@)), 0),
        (header matches Some(h) ==> bearer(h@) is None) && query is None ==> presented(
            header,
            query,
        ) is None,
{
}

} // verus!
