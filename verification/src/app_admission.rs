//! Admission for first-party native applications.
//!
//! A first-party application reaches its own owner-only endpoint and opens
//! with a hello naming itself and, in version two, the resident route it
//! wants. The hello is a label, not a credential: this module normalizes it,
//! checks the protocol, and selects the host-configured route granted to that
//! application. Anything not granted is refused with a reason.

use std::time::Duration;
use vstd::prelude::*;

use crate::endpoint_catalog::{
    duration_as_nanos, duration_from_millis, is_valid_route_id, valid_route_id, ResidentEndpointRoute, ResidentEndpointRouteView,
};
use crate::text::{
    debug_form, debug_text, push_str, ascii_lower, chars_of, compare_chars, lemma_seq_lt_transitive, lemma_seq_lt_trichotomy,
    lower_chars, seq_lt, string_from_chars, trim, trim_chars,
};

verus! {

/// Environment override for the first-party application endpoint.
pub const APP_ENDPOINT_ENV: &'static str = "GRAPHSHELL_APP_ENDPOINT";

/// The named pipe first-party applications reach on Windows.
pub const DEFAULT_WINDOWS_APP_ENDPOINT: &'static str = "\\\\.\\pipe\\graphshell-device-app";

/// The socket file first-party applications reach elsewhere, in the
/// runtime directory so that reaching it means being its owner.
pub const APP_SOCKET_NAME: &'static str = "graphshell-app.sock";

/// The endpoint first-party applications reach: the one [`APP_ENDPOINT_ENV`]
/// names when it names one (blank counts as unset), else the platform
/// default the host computed.
pub fn configured_app_endpoint(from_env: Option<String>, default: String) -> (r: String)
    ensures
        r@ == match from_env {
            Some(e) => if trim(e@).len() > 0 {
                e@
            } else {
                default@
            },
            None => default@,
        },
{
    match from_env {
        Some(e) => {
            if trim_chars(&chars_of(e.as_str())).len() > 0 {
                e
            } else {
                default
            }
        },
        None => default,
    }
}

/// The hello schema a first-party application opens with.
pub const APP_HELLO_SCHEMA: &'static str = "mere.graphshell/app-broker-hello/v1";

/// Route-aware hello schema: version two names one host-configured resident route.
pub const APP_ROUTE_HELLO_SCHEMA: &'static str = "mere.graphshell/app-broker-hello/v2";

/// The route selected by the version-one hello.
pub const APP_IDENTITY_ROUTE: &'static str = "identity";

/// An application name as matched: trimmed and ASCII-lowercased.
pub open spec fn normalize_app(name: Seq<char>) -> Seq<char> {
    ascii_lower(trim(name))
}

/// Normalizing a normalized name changes nothing, so a name that went
/// through [`AppId::new`] is matched as itself when a hello is accepted.
pub proof fn lemma_normalize_idempotent(name: Seq<char>)
    ensures
        normalize_app(normalize_app(name)) == normalize_app(name),
{
    crate::text::lemma_trim_idempotent(name);
    crate::text::lemma_lower_trim(trim(name));
}

/// Which application is connecting. A plain label, normalized on construction
/// so `Turnstone` and ` turnstone ` are one application rather than two.
#[derive(Debug, PartialEq, Eq, PartialOrd, Ord, Hash)]
pub struct AppId(String);

impl View for AppId {
    type V = Seq<char>;

    closed spec fn view(&self) -> Seq<char> {
        self.0@
    }
}

impl Clone for AppId {
    fn clone(&self) -> (r: Self)
        ensures
            r@ == self@,
    {
        AppId(self.0.clone())
    }
}

impl AppId {
    /// Name an application.
    pub fn new(id: &str) -> (r: Self)
        ensures
            r@ == normalize_app(id@),
    {
        let chars = chars_of(id);
        let trimmed = trim_chars(&chars);
        let lowered = lower_chars(&trimmed);
        AppId(string_from_chars(&lowered))
    }

    /// The name as matched.
    pub fn as_str(&self) -> (r: &str)
        ensures
            r@ == self@,
    {
        self.0.as_str()
    }

    /// The name, for messages.
    pub fn to_text(&self) -> (r: String)
        ensures
            r@ == self@,
    {
        self.0.clone()
    }
}

/// One host-local resident route key: a routing label, not authority.
#[derive(Debug, PartialEq, Eq, PartialOrd, Ord, Hash)]
pub struct AppRouteId(String);

impl View for AppRouteId {
    type V = Seq<char>;

    closed spec fn view(&self) -> Seq<char> {
        self.0@
    }
}

impl Clone for AppRouteId {
    fn clone(&self) -> (r: Self)
        ensures
            r@ == self@,
    {
        AppRouteId(self.0.clone())
    }
}

/// The version-one route, as characters.
pub open spec fn identity_route() -> Seq<char> {
    APP_IDENTITY_ROUTE@
}

impl AppRouteId {
    /// Validate and name a host-local resident route.
    pub fn new(id: &str) -> (r: Result<Self, AppAdmissionError>)
        ensures
            valid_route_id(id@) ==> (r matches Ok(route) && route@ == id@),
            !valid_route_id(id@) ==> (r matches Err(e) && e@ == AdmissionErrorView::InvalidRoute(
                id@,
            )),
    {
        if !is_valid_route_id(id) {
            return Err(AppAdmissionError::InvalidRoute(id.to_owned()));
        }
        Ok(AppRouteId(id.to_owned()))
    }

    /// The route selected by an installed version-one client.
    pub fn identity() -> (r: Self)
        ensures
            r@ == identity_route(),
    {
        AppRouteId(APP_IDENTITY_ROUTE.to_owned())
    }

    /// The exact host-local routing key.
    pub fn as_str(&self) -> (r: &str)
        ensures
            r@ == self@,
    {
        self.0.as_str()
    }
}

/// The identity route is a valid route key.
pub proof fn lemma_identity_route_is_valid()
    ensures
        valid_route_id(identity_route()),
{
    reveal_strlit("identity");
    assert(identity_route() =~= seq!['i', 'd', 'e', 'n', 't', 'i', 't', 'y']);
}

/// Why a first-party connection was refused.
#[derive(Debug, PartialEq, Eq)]
pub enum AppAdmissionError {
    /// The hello was not this endpoint's protocol.
    WrongSchema(String),
    /// The application is not one this device admits.
    NotAllowed(AppId),
    /// The application is known, but this route is not in its host grant.
    RouteNotGranted { app: AppId, route: AppRouteId },
    /// The hello named no application.
    Unnamed,
    /// The route key was empty or ambiguous.
    InvalidRoute(String),
    /// A version-one hello attempted to smuggle a route selection.
    RouteOnLegacyHello,
}

/// The mathematical content of an admission error.
pub enum AdmissionErrorView {
    WrongSchema(Seq<char>),
    NotAllowed(Seq<char>),
    RouteNotGranted(Seq<char>, Seq<char>),
    Unnamed,
    InvalidRoute(Seq<char>),
    RouteOnLegacyHello,
}

impl View for AppAdmissionError {
    type V = AdmissionErrorView;

    open spec fn view(&self) -> AdmissionErrorView {
        match self {
            AppAdmissionError::WrongSchema(s) => AdmissionErrorView::WrongSchema(s@),
            AppAdmissionError::NotAllowed(a) => AdmissionErrorView::NotAllowed(a@),
            AppAdmissionError::RouteNotGranted { app, route } => AdmissionErrorView::RouteNotGranted(
                app@,
                route@,
            ),
            AppAdmissionError::Unnamed => AdmissionErrorView::Unnamed,
            AppAdmissionError::InvalidRoute(s) => AdmissionErrorView::InvalidRoute(s@),
            AppAdmissionError::RouteOnLegacyHello => AdmissionErrorView::RouteOnLegacyHello,
        }
    }
}

/// First message on a first-party application connection.
#[derive(Debug, PartialEq, Eq)]
pub struct AppHello {
    /// [`APP_HELLO_SCHEMA`] or [`APP_ROUTE_HELLO_SCHEMA`].
    pub schema: String,
    /// Which application is speaking.
    pub app: AppId,
    /// Version two's requested resident route; absent on version one.
    pub route: Option<AppRouteId>,
}

/// The mathematical content of a hello.
pub struct AppHelloView {
    pub schema: Seq<char>,
    pub app: Seq<char>,
    pub route: Option<Seq<char>>,
}

impl View for AppHello {
    type V = AppHelloView;

    open spec fn view(&self) -> AppHelloView {
        AppHelloView {
            schema: self.schema@,
            app: self.app@,
            route: match self.route {
                Some(r) => Some(r@),
                None => None,
            },
        }
    }
}

/// The host-relevant facts from one accepted hello.
#[derive(Debug, PartialEq, Eq)]
pub struct AppRequest {
    pub app: AppId,
    pub route: AppRouteId,
}

/// The mathematical content of a request.
pub struct AppRequestView {
    pub app: Seq<char>,
    pub route: Seq<char>,
}

impl View for AppRequest {
    type V = AppRequestView;

    open spec fn view(&self) -> AppRequestView {
        AppRequestView { app: self.app@, route: self.route@ }
    }
}

/// What accepting a hello yields: the protocol check, then the application and route.
pub open spec fn accept_outcome(h: AppHelloView) -> Result<AppRequestView, AdmissionErrorView> {
    let app = normalize_app(h.app);
    if app.len() == 0 {
        Err(AdmissionErrorView::Unnamed)
    } else if h.schema == APP_HELLO_SCHEMA@ {
        if h.route is Some {
            Err(AdmissionErrorView::RouteOnLegacyHello)
        } else {
            Ok(AppRequestView { app, route: identity_route() })
        }
    } else if h.schema == APP_ROUTE_HELLO_SCHEMA@ {
        match h.route {
            None => Err(AdmissionErrorView::InvalidRoute(Seq::empty())),
            Some(r) => if valid_route_id(r) {
                Ok(AppRequestView { app, route: r })
            } else {
                Err(AdmissionErrorView::InvalidRoute(r))
            },
        }
    } else {
        Err(AdmissionErrorView::WrongSchema(h.schema))
    }
}

impl AppHello {
    /// Open a connection as `app`.
    pub fn new(app: AppId) -> (r: Self)
        ensures
            r@.schema == APP_HELLO_SCHEMA@,
            r@.app == app@,
            r@.route is None,
    {
        AppHello { schema: APP_HELLO_SCHEMA.to_owned(), app, route: None }
    }

    /// Open a route-aware connection as `app`.
    pub fn for_route(app: AppId, route: AppRouteId) -> (r: Self)
        ensures
            r@.schema == APP_ROUTE_HELLO_SCHEMA@,
            r@.app == app@,
            r@.route == Some(route@),
    {
        AppHello { schema: APP_ROUTE_HELLO_SCHEMA.to_owned(), app, route: Some(route) }
    }

    /// Check the protocol and yield the application and route requested.
    ///
    /// The application name is normalized again and the route validated again,
    /// because a hello decoded from the wire never passed through the constructors.
    pub fn accept(self) -> (r: Result<AppRequest, AppAdmissionError>)
        ensures
            match (r, accept_outcome(self@)) {
                (Ok(req), Ok(v)) => req@ == v,
                (Err(e), Err(v)) => e@ == v,
                _ => false,
            },
    {
        let app = AppId::new(self.app.as_str());
        if app.0.as_str().is_empty() {
            return Err(AppAdmissionError::Unnamed);
        }
        if crate::text::str_eq(self.schema.as_str(), APP_HELLO_SCHEMA) {
            if self.route.is_some() {
                return Err(AppAdmissionError::RouteOnLegacyHello);
            }
            proof {
                lemma_identity_route_is_valid();
            }
            let route = AppRouteId::identity();
            let route = AppRouteId::new(route.as_str())?;
            return Ok(AppRequest { app, route });
        }
        if crate::text::str_eq(self.schema.as_str(), APP_ROUTE_HELLO_SCHEMA) {
            let route = match self.route {
                Some(route) => route,
                None => {
                    return Err(AppAdmissionError::InvalidRoute(String::new()));
                },
            };
            let route = AppRouteId::new(route.as_str())?;
            return Ok(AppRequest { app, route });
        }
        Err(AppAdmissionError::WrongSchema(self.schema))
    }
}

} // verus!

verus! {

/// A grant key: the application, then the route it may select.
pub type GrantKey = (Seq<char>, Seq<char>);

/// Strict order on grant keys: by application, then by route.
pub open spec fn key_lt(a: GrantKey, b: GrantKey) -> bool {
    seq_lt(a.0, b.0) || (a.0 == b.0 && seq_lt(a.1, b.1))
}

proof fn lemma_key_lt_facts(a: GrantKey, b: GrantKey, c: GrantKey)
    ensures
        !key_lt(a, a),
        key_lt(a, b) ==> !key_lt(b, a),
        a != b ==> key_lt(a, b) || key_lt(b, a),
        key_lt(a, b) && key_lt(b, c) ==> key_lt(a, c),
{
    lemma_seq_lt_trichotomy(a.0, b.0);
    lemma_seq_lt_trichotomy(a.1, b.1);
    lemma_seq_lt_trichotomy(a.0, a.0);
    lemma_seq_lt_trichotomy(a.1, a.1);
    if key_lt(a, b) && key_lt(b, c) {
        if seq_lt(a.0, b.0) && seq_lt(b.0, c.0) {
            lemma_seq_lt_transitive(a.0, b.0, c.0);
        } else if a.0 == b.0 && b.0 == c.0 {
            lemma_seq_lt_transitive(a.1, b.1, c.1);
        }
    }
}

/// Fold of grants in order, a later grant of the same pair replacing an earlier one.
pub open spec fn grant_map(g: Seq<(Seq<char>, ResidentEndpointRouteView)>) -> Map<
    GrantKey,
    ResidentEndpointRouteView,
>
    decreases g.len(),
{
    if g.len() == 0 {
        Map::empty()
    } else {
        grant_map(g.drop_last()).insert((g.last().0, g.last().1.id), g.last().1)
    }
}

/// The grants as the views of their parts.
pub open spec fn grant_views(g: Seq<(AppId, ResidentEndpointRoute)>) -> Seq<
    (Seq<char>, ResidentEndpointRouteView),
> {
    g.map_values(|p: (AppId, ResidentEndpointRoute)| (p.0@, p.1@))
}

/// Whether any grant names application `app`.
pub open spec fn grants_app(m: Map<GrantKey, ResidentEndpointRouteView>, app: Seq<char>) -> bool {
    exists|k: GrantKey| #[trigger] m.contains_key(k) && k.0 == app
}

/// What admission selects for a request under a grant table.
pub open spec fn admit_outcome(
    m: Map<GrantKey, ResidentEndpointRouteView>,
    req: AppRequestView,
) -> Result<ResidentEndpointRouteView, AdmissionErrorView> {
    if !grants_app(m, req.app) {
        Err(AdmissionErrorView::NotAllowed(req.app))
    } else if !m.contains_key((req.app, req.route)) {
        Err(AdmissionErrorView::RouteNotGranted(req.app, req.route))
    } else {
        Ok(m[(req.app, req.route)])
    }
}

/// The applications this device serves, each with the resident routes it is granted.
///
/// Default-deny: an application the owner has not named gets no session by
/// knowing the endpoint's name.
#[derive(Debug, PartialEq, Eq)]
pub struct AllowedAppRoutes {
    entries: Vec<(AppId, ResidentEndpointRoute)>,
}

impl AllowedAppRoutes {
    /// The grant key of entry `i`.
    pub closed spec fn key_at(&self, i: int) -> GrantKey {
        (self.entries@[i].0@, self.entries@[i].1@.id)
    }

    /// The grant keys in table order.
    pub closed spec fn keys(&self) -> Seq<GrantKey> {
        Seq::new(self.entries@.len(), |i: int| self.key_at(i))
    }

    /// Entries are strictly ordered by key, so no pair occurs twice.
    pub closed spec fn wf(&self) -> bool {
        forall|i: int, j: int|
            0 <= i < j < self.entries@.len() ==> key_lt(#[trigger] self.key_at(i), #[trigger] self.key_at(j))
    }

    /// The grant table: which route each granted pair selects.
    pub closed spec fn grants(&self) -> Map<GrantKey, ResidentEndpointRouteView> {
        Map::new(
            |k: GrantKey| exists|i: int| 0 <= i < self.entries@.len() && self.key_at(i) == k,
            |k: GrantKey|
                self.entries@[choose|i: int| 0 <= i < self.entries@.len() && self.key_at(i) == k].1@,
        )
    }

    proof fn lemma_unique_index(&self, i: int, j: int)
        requires
            self.wf(),
            0 <= i < self.entries@.len(),
            0 <= j < self.entries@.len(),
            self.key_at(i) == self.key_at(j),
        ensures
            i == j,
    {
        if i < j {
            lemma_key_lt_facts(self.key_at(i), self.key_at(j), self.key_at(j));
        } else if j < i {
            lemma_key_lt_facts(self.key_at(j), self.key_at(i), self.key_at(i));
        }
    }

    proof fn lemma_lookup(&self, i: int)
        requires
            self.wf(),
            0 <= i < self.entries@.len(),
        ensures
            self.grants().contains_key(self.key_at(i)),
            self.grants()[self.key_at(i)] == self.entries@[i].1@,
    {
        let k = self.key_at(i);
        assert(exists|j: int| 0 <= j < self.entries@.len() && self.key_at(j) == k);
        let c = choose|j: int| 0 <= j < self.entries@.len() && self.key_at(j) == k;
        self.lemma_unique_index(i, c);
    }

    /// Admit none. A device that wants no first-party clients says so.
    pub fn none() -> (r: Self)
        ensures
            r.wf(),
            r.grants() == Map::<GrantKey, ResidentEndpointRouteView>::empty(),
            r.keys().len() == 0,
    {
        let r = AllowedAppRoutes { entries: Vec::new() };
        assert(r.grants() =~= Map::<GrantKey, ResidentEndpointRouteView>::empty());
        assert(r.keys() =~= Seq::<GrantKey>::empty());
        r
    }

    /// Add one grant, replacing the route of an already granted pair.
    fn grant(&mut self, app: AppId, route: ResidentEndpointRoute)
        requires
            old(self).wf(),
        ensures
            final(self).wf(),
            final(self).grants() == old(self).grants().insert((app@, route@.id), route@),
    {
        let ghost k = (app@, route@.id);
        let app_chars = chars_of(app.as_str());
        let route_chars = chars_of(route.id());
        let mut p: usize = 0;
        let mut found = false;
        let mut stopped = false;
        while p < self.entries.len() && !stopped
            invariant
                self.wf(),
                p <= self.entries@.len(),
                app_chars@ == app@,
                route_chars@ == route@.id,
                k == (app@, route@.id),
                forall|i: int| 0 <= i < p ==> key_lt(#[trigger] self.key_at(i), k),
                stopped ==> p < self.entries@.len() && !key_lt(self.key_at(p as int), k),
                found == (stopped && self.key_at(p as int) == k),
            decreases self.entries@.len() - p + (if stopped { 0int } else { 1int }),
        {
            let a = chars_of(self.entries[p].0.as_str());
            let r = chars_of(self.entries[p].1.id());
            let ca = compare_chars(&a, &app_chars);
            let cr = compare_chars(&r, &route_chars);
            proof {
                assert(self.key_at(p as int) == (a@, r@));
            }
            if ca < 0 || (ca == 0 && cr < 0) {
                p = p + 1;
            } else {
                found = ca == 0 && cr == 0;
                stopped = true;
            }
        }
        let ghost before = *self;
        if found {
            self.entries.set(p, (app, route));
            proof {
                assert forall|i: int, j: int|
                    0 <= i < j < self.entries@.len() implies key_lt(
                    #[trigger] self.key_at(i),
                    #[trigger] self.key_at(j),
                ) by {
                    assert(self.key_at(i) == before.key_at(i));
                    assert(self.key_at(j) == before.key_at(j));
                }
                assert forall|kk: GrantKey| #[trigger]
                    self.grants().contains_key(kk) == before.grants().insert(k, route@).contains_key(
                        kk,
                    ) by {
                    if before.grants().contains_key(kk) {
                        let c = choose|j: int| 0 <= j < before.entries@.len() && before.key_at(j) == kk;
                        assert(self.key_at(c) == kk);
                    }
                    if self.grants().contains_key(kk) {
                        let c = choose|j: int| 0 <= j < self.entries@.len() && self.key_at(j) == kk;
                        assert(before.key_at(c) == kk);
                    }
                    if kk == k {
                        assert(self.key_at(p as int) == k);
                    }
                }
                assert forall|kk: GrantKey| self.grants().contains_key(kk) implies #[trigger]
                    self.grants()[kk] == before.grants().insert(k, route@)[kk] by {
                    let c = choose|j: int| 0 <= j < self.entries@.len() && self.key_at(j) == kk;
                    self.lemma_lookup(c);
                    if c != p {
                        assert(before.key_at(c) == kk);
                        before.lemma_lookup(c);
                        if kk == k {
                            self.lemma_unique_index(c, p as int);
                        }
                    }
                }
                assert(self.grants() =~= before.grants().insert(k, route@));
            }
        } else {
            self.entries.insert(p, (app, route));
            proof {
                if p < before.entries@.len() {
                    lemma_key_lt_facts(before.key_at(p as int), k, k);
                    assert(key_lt(k, before.key_at(p as int)));
                }
                assert forall|i: int| 0 <= i < p implies #[trigger] self.key_at(i) == before.key_at(i) by {}
                assert forall|i: int| p < i < self.entries@.len() implies #[trigger] self.key_at(i)
                    == before.key_at(i - 1) by {}
                assert(self.key_at(p as int) == k);
                if p < before.entries@.len() {
                    lemma_key_lt_facts(before.key_at(p as int), k, k);
                }
                assert forall|i: int, j: int|
                    0 <= i < j < self.entries@.len() implies key_lt(
                    #[trigger] self.key_at(i),
                    #[trigger] self.key_at(j),
                ) by {
                    if j < p {
                        assert(key_lt(before.key_at(i), before.key_at(j)));
                    } else if j == p {
                        assert(key_lt(before.key_at(i), k));
                    } else if i < p {
                        assert(key_lt(before.key_at(i), k));
                        if j - 1 > p {
                            assert(key_lt(before.key_at(p as int), before.key_at(j - 1)));
                            lemma_key_lt_facts(k, before.key_at(p as int), before.key_at(j - 1));
                        }
                        lemma_key_lt_facts(before.key_at(i), k, before.key_at(j - 1));
                    } else if i == p {
                        if j - 1 > p {
                            assert(key_lt(before.key_at(p as int), before.key_at(j - 1)));
                            lemma_key_lt_facts(k, before.key_at(p as int), before.key_at(j - 1));
                        }
                    } else {
                        assert(key_lt(before.key_at(i - 1), before.key_at(j - 1)));
                    }
                }
                assert forall|kk: GrantKey| #[trigger]
                    self.grants().contains_key(kk) == before.grants().insert(k, route@).contains_key(
                        kk,
                    ) by {
                    if before.grants().contains_key(kk) {
                        let c = choose|j: int| 0 <= j < before.entries@.len() && before.key_at(j) == kk;
                        if c < p {
                            assert(self.key_at(c) == kk);
                        } else {
                            assert(self.key_at(c + 1) == kk);
                        }
                    }
                    if self.grants().contains_key(kk) {
                        let c = choose|j: int| 0 <= j < self.entries@.len() && self.key_at(j) == kk;
                        if c < p {
                            assert(before.key_at(c) == kk);
                        } else if c > p {
                            assert(before.key_at(c - 1) == kk);
                        }
                    }
                }
                assert forall|kk: GrantKey| self.grants().contains_key(kk) implies #[trigger]
                    self.grants()[kk] == before.grants().insert(k, route@)[kk] by {
                    let c = choose|j: int| 0 <= j < self.entries@.len() && self.key_at(j) == kk;
                    self.lemma_lookup(c);
                    if c < p {
                        before.lemma_lookup(c);
                        if kk == k {
                            self.lemma_unique_index(c, p as int);
                        }
                    } else if c > p {
                        before.lemma_lookup(c - 1);
                        if kk == k {
                            self.lemma_unique_index(c, p as int);
                        }
                    }
                }
                assert(self.grants() =~= before.grants().insert(k, route@));
            }
        }
    }

    /// Admit exactly these application-to-route pairs. Repeating an
    /// application grants it more than one route; repeating a pair keeps the
    /// later route.
    pub fn new(grants: Vec<(AppId, ResidentEndpointRoute)>) -> (r: Self)
        ensures
            r.wf(),
            r.grants() == grant_map(grant_views(grants@)),
    {
        let mut r = AllowedAppRoutes::none();
        let ghost g = grants@;
        let mut rest = grants;
        let ghost mut n: int = 0;
        proof {
            assert(grant_views(g.subrange(0, 0)) =~= Seq::empty());
            assert(rest@ =~= g.subrange(0, g.len() as int));
        }
        while rest.len() > 0
            invariant
                r.wf(),
                0 <= n <= g.len(),
                rest@.len() + n == g.len(),
                rest@ =~= g.subrange(n, g.len() as int),
                r.grants() == grant_map(grant_views(g.subrange(0, n))),
            decreases rest@.len(),
        {
            let (app, route) = rest.remove(0);
            proof {
                assert((app, route) == g[n]);
                let s = grant_views(g.subrange(0, n + 1));
                assert(s.drop_last() =~= grant_views(g.subrange(0, n)));
                assert(s.last() == (app@, route@));
            }
            r.grant(app, route);
            proof {
                n = n + 1;
            }
        }
        proof {
            assert(g.subrange(0, n) =~= g);
        }
        r
    }

    /// Select the host-configured route granted to this request.
    pub fn admit_request(&self, request: &AppRequest) -> (r: Result<ResidentEndpointRoute, AppAdmissionError>)
        requires
            self.wf(),
        ensures
            match (r, admit_outcome(self.grants(), request@)) {
                (Ok(route), Ok(v)) => route@ == v,
                (Err(e), Err(v)) => e@ == v,
                _ => false,
            },
    {
        let app_chars = chars_of(request.app.as_str());
        let route_chars = chars_of(request.route.as_str());
        let mut app_seen = false;
        let mut i: usize = 0;
        while i < self.entries.len()
            invariant
                self.wf(),
                i <= self.entries@.len(),
                app_chars@ == request@.app,
                route_chars@ == request@.route,
                app_seen == exists|j: int| 0 <= j < i && #[trigger] self.key_at(j).0 == request@.app,
                forall|j: int| 0 <= j < i ==> #[trigger] self.key_at(j) != (request@.app, request@.route),
            decreases self.entries@.len() - i,
        {
            let a = chars_of(self.entries[i].0.as_str());
            let r = chars_of(self.entries[i].1.id());
            proof {
                assert(self.key_at(i as int) == (a@, r@));
            }
            if crate::text::chars_eq(&a, &app_chars) {
                app_seen = true;
                if crate::text::chars_eq(&r, &route_chars) {
                    proof {
                        self.lemma_lookup(i as int);
                    }
                    return Ok(self.entries[i].1.clone());
                }
            }
            i = i + 1;
        }
        proof {
            if grants_app(self.grants(), request@.app) {
                let k = choose|k: GrantKey| #[trigger] self.grants().contains_key(k) && k.0 == request@.app;
                let c = choose|j: int| 0 <= j < self.entries@.len() && self.key_at(j) == k;
                assert(self.key_at(c).0 == request@.app);
            }
            if app_seen {
                let c = choose|j: int| 0 <= j < i && #[trigger] self.key_at(j).0 == request@.app;
                self.lemma_lookup(c);
                assert(self.grants().contains_key(self.key_at(c)));
            }
            if self.grants().contains_key((request@.app, request@.route)) {
                let c = choose|j: int|
                    0 <= j < self.entries@.len() && self.key_at(j) == (request@.app, request@.route);
                assert(self.key_at(c) != (request@.app, request@.route));
            }
        }
        if !app_seen {
            Err(AppAdmissionError::NotAllowed(request.app.clone()))
        } else {
            Err(AppAdmissionError::RouteNotGranted {
                app: request.app.clone(),
                route: request.route.clone(),
            })
        }
    }

    /// The application and route pairs admitted, in application-then-route order.
    pub fn iter(&self) -> (r: Vec<(AppId, AppRouteId)>)
        requires
            self.wf(),
        ensures
            r@.len() == self.keys().len(),
            forall|i: int|
                0 <= i < r@.len() ==> (#[trigger] r@[i]).0@ == self.keys()[i].0 && r@[i].1@
                    == self.keys()[i].1,
    {
        let mut out: Vec<(AppId, AppRouteId)> = Vec::new();
        let mut i: usize = 0;
        while i < self.entries.len()
            invariant
                i <= self.entries@.len(),
                out@.len() == i,
                forall|j: int|
                    0 <= j < i ==> (#[trigger] out@[j]).0@ == self.key_at(j).0 && out@[j].1@
                        == self.key_at(j).1,
            decreases self.entries@.len() - i,
        {
            let app = self.entries[i].0.clone();
            let route = AppRouteId(self.entries[i].1.id().to_owned());
            out.push((app, route));
            i = i + 1;
        }
        out
    }

    /// The ordered keys are strictly increasing and list exactly the granted pairs.
    pub proof fn lemma_keys_list_grants(&self)
        requires
            self.wf(),
        ensures
            forall|i: int, j: int|
                0 <= i < j < self.keys().len() ==> key_lt(#[trigger] self.keys()[i], #[trigger] self.keys()[j]),
            forall|k: GrantKey| #[trigger]
                self.grants().contains_key(k) <==> self.keys().contains(k),
    {
        assert forall|k: GrantKey| #[trigger] self.grants().contains_key(k) <==> self.keys().contains(k) by {
            if self.keys().contains(k) {
                let i = choose|i: int| 0 <= i < self.keys().len() && self.keys()[i] == k;
                assert(self.key_at(i) == k);
            }
            if self.grants().contains_key(k) {
                let i = choose|i: int| 0 <= i < self.entries@.len() && self.key_at(i) == k;
                assert(self.keys()[i] == k);
            }
        }
    }
}

} // verus!

verus! {

/// The text of an admission refusal.
pub open spec fn admission_message(e: AdmissionErrorView) -> Seq<char> {
    match e {
        AdmissionErrorView::WrongSchema(found) => "expected the first-party hello "@ + APP_HELLO_SCHEMA@
            + " or "@ + APP_ROUTE_HELLO_SCHEMA@ + ", got "@ + found
            + "; a browser belongs on the browser endpoint"@,
        AdmissionErrorView::NotAllowed(app) => app + " is not an application this device admits"@,
        AdmissionErrorView::RouteNotGranted(app, route) => app + " is not granted the resident route "@
            + route,
        AdmissionErrorView::Unnamed => "the first-party hello named no application"@,
        AdmissionErrorView::InvalidRoute(route) => "the first-party hello named an invalid resident route "@
            + debug_form(route),
        AdmissionErrorView::RouteOnLegacyHello => "the version-one first-party hello cannot select a resident route"@,
    }
}

impl AppAdmissionError {
    /// The refusal as text, as `Display` renders it.
    pub fn message(&self) -> (r: String)
        ensures
            r@ == admission_message(self@),
    {
        let mut out = String::new();
        match self {
            AppAdmissionError::WrongSchema(found) => {
                push_str(&mut out, "expected the first-party hello ");
                push_str(&mut out, APP_HELLO_SCHEMA);
                push_str(&mut out, " or ");
                push_str(&mut out, APP_ROUTE_HELLO_SCHEMA);
                push_str(&mut out, ", got ");
                push_str(&mut out, found.as_str());
                push_str(&mut out, "; a browser belongs on the browser endpoint");
            },
            AppAdmissionError::NotAllowed(app) => {
                push_str(&mut out, app.as_str());
                push_str(&mut out, " is not an application this device admits");
            },
            AppAdmissionError::RouteNotGranted { app, route } => {
                push_str(&mut out, app.as_str());
                push_str(&mut out, " is not granted the resident route ");
                push_str(&mut out, route.as_str());
            },
            AppAdmissionError::Unnamed => {
                push_str(&mut out, "the first-party hello named no application");
            },
            AppAdmissionError::InvalidRoute(route) => {
                push_str(&mut out, "the first-party hello named an invalid resident route ");
                let quoted = debug_text(route.as_str());
                push_str(&mut out, quoted.as_str());
            },
            AppAdmissionError::RouteOnLegacyHello => {
                push_str(&mut out, "the version-one first-party hello cannot select a resident route");
            },
        }
        assert(out@ =~= admission_message(self@));
        out
    }
}

} // verus!

verus! {

/// Notice cadence of the default identity grant, in milliseconds. The identity
/// route ignores it; catalog routes carry their own.
pub const DEFAULT_IDENTITY_NOTICE_POLL_MS: u64 = 50;

/// The application admitted by default.
pub const DEFAULT_APP: &'static str = "turnstone";

impl Default for AllowedAppRoutes {
    /// Admit `turnstone` on the identity route only.
    fn default() -> (r: Self)
        ensures
            r.wf(),
            r.grants().dom() =~= set![(normalize_app(DEFAULT_APP@), identity_route())],
            r.grants()[(normalize_app(DEFAULT_APP@), identity_route())].id == identity_route(),
            duration_as_nanos(r.grants()[(normalize_app(DEFAULT_APP@), identity_route())].notice_poll_interval)
                == 50_000_000,
    {
        proof {
            lemma_identity_route_is_valid();
        }
        let poll = duration_from_millis(DEFAULT_IDENTITY_NOTICE_POLL_MS);
        let route = match ResidentEndpointRoute::new(APP_IDENTITY_ROUTE, poll) {
            Ok(route) => route,
            Err(_) => {
                proof {
                    assert(false);
                }
                return AllowedAppRoutes::none();
            },
        };
        let mut grants: Vec<(AppId, ResidentEndpointRoute)> = Vec::new();
        let app = AppId::new(DEFAULT_APP);
        let ghost key = (app@, route@.id);
        let ghost rv = route@;
        grants.push((app, route));
        let ghost gv = grants@;
        let r = AllowedAppRoutes::new(grants);
        proof {
            let g = grant_views(gv);
            assert(g.len() == 1);
            assert(g.last() == (key.0, rv));
            assert(g.drop_last() =~= Seq::empty());
            assert(grant_map(g.drop_last()) == Map::<GrantKey, ResidentEndpointRouteView>::empty());
            assert(grant_map(g) == Map::<GrantKey, ResidentEndpointRouteView>::empty().insert(key, rv));
        }
        r
    }
}

} // verus!

verus! {

/// A version-one hello built for a named application is accepted, as that
/// application, on the identity route.
pub proof fn lemma_legacy_hello_accepted(name: Seq<char>)
    requires
        normalize_app(name).len() > 0,
    ensures
        accept_outcome(AppHelloView { schema: APP_HELLO_SCHEMA@, app: normalize_app(name), route: None })
            == Ok::<AppRequestView, AdmissionErrorView>(
            AppRequestView { app: normalize_app(name), route: identity_route() },
        ),
{
    lemma_normalize_idempotent(name);
}

/// A version-two hello built for a named application is accepted exactly when
/// its route is a valid key, and then carries that route unchanged.
pub proof fn lemma_route_hello_accepted(name: Seq<char>, route: Seq<char>)
    requires
        normalize_app(name).len() > 0,
    ensures
        accept_outcome(
            AppHelloView { schema: APP_ROUTE_HELLO_SCHEMA@, app: normalize_app(name), route: Some(route) },
        ) == (if valid_route_id(route) {
            Ok::<AppRequestView, AdmissionErrorView>(
                AppRequestView { app: normalize_app(name), route },
            )
        } else {
            Err(AdmissionErrorView::InvalidRoute(route))
        }),
{
    lemma_normalize_idempotent(name);
    reveal_strlit("mere.graphshell/app-broker-hello/v1");
    reveal_strlit("mere.graphshell/app-broker-hello/v2");
    assert(APP_HELLO_SCHEMA@[34] != APP_ROUTE_HELLO_SCHEMA@[34]);
}

/// A hello that normalizes to no name is refused as unnamed, whatever else it says.
pub proof fn lemma_unnamed_hello_refused(h: AppHelloView)
    requires
        normalize_app(h.app).len() == 0,
    ensures
        accept_outcome(h) == Err::<AppRequestView, AdmissionErrorView>(AdmissionErrorView::Unnamed),
{
}

/// A table that grants nothing refuses every request as not allowed.
pub proof fn lemma_empty_table_refuses(req: AppRequestView)
    ensures
        admit_outcome(Map::empty(), req) == Err::<ResidentEndpointRouteView, AdmissionErrorView>(
            AdmissionErrorView::NotAllowed(req.app),
        ),
{
}

/// Admission only ever selects the route granted for exactly the requested pair.
pub proof fn lemma_admitted_route_is_granted(
    m: Map<GrantKey, ResidentEndpointRouteView>,
    req: AppRequestView,
)
    ensures
        admit_outcome(m, req) is Ok ==> m.contains_key((req.app, req.route)) && admit_outcome(
            m,
            req,
        ) == Ok::<ResidentEndpointRouteView, AdmissionErrorView>(m[(req.app, req.route)]),
        admit_outcome(m, req) matches Err(AdmissionErrorView::RouteNotGranted(a, r)) ==> grants_app(m, req.app) && a == req.app && r == req.route,
{
    if m.contains_key((req.app, req.route)) {
        assert(m.contains_key((req.app, req.route)) && (req.app, req.route).0 == req.app);
    }
}

/// The grant key of a grant.
pub open spec fn grant_key(g: (Seq<char>, ResidentEndpointRouteView)) -> GrantKey {
    (g.0, g.1.id)
}

/// A table built from grants holds exactly the granted (application, route)
/// pairs, so repeating an application grants it several routes; and every
/// grant that no later grant of the same pair overrides admits a request
/// for that pair to its own route.
pub proof fn lemma_grants_admit_their_routes(g: Seq<(Seq<char>, ResidentEndpointRouteView)>, i: int)
    ensures
        forall|k: GrantKey|
            #[trigger] grant_map(g).contains_key(k) <==> exists|q: int| 0 <= q < g.len() && #[trigger] grant_key(g[q]) == k,
        0 <= i < g.len() && (forall|q: int| i < q < g.len() ==> #[trigger] grant_key(g[q]) != grant_key(g[i]))
            ==> admit_outcome(grant_map(g), AppRequestView { app: g[i].0, route: g[i].1.id }) == Ok::<
            ResidentEndpointRouteView,
            AdmissionErrorView,
        >(g[i].1),
    decreases g.len(),
{
    if g.len() > 0 {
        let t = g.drop_last();
        lemma_grants_admit_their_routes(t, i);
        assert forall|k: GrantKey|
            #[trigger] grant_map(g).contains_key(k) <==> exists|q: int| 0 <= q < g.len() && #[trigger] grant_key(g[q]) == k by {
            if grant_map(g).contains_key(k) && k != grant_key(g.last()) {
                let q = choose|q: int| 0 <= q < t.len() && #[trigger] grant_key(t[q]) == k;
                assert(grant_key(g[q]) == k);
            }
            if exists|q: int| 0 <= q < g.len() && #[trigger] grant_key(g[q]) == k {
                let q = choose|q: int| 0 <= q < g.len() && #[trigger] grant_key(g[q]) == k;
                if q < t.len() {
                    assert(grant_key(t[q]) == k);
                } else {
                    assert(q == g.len() - 1);
                }
            }
        }
        if 0 <= i < g.len() && (forall|q: int| i < q < g.len() ==> #[trigger] grant_key(g[q]) != grant_key(g[i])) {
            let k = grant_key(g[i]);
            let m = grant_map(g);
            if i < t.len() {
                assert forall|q: int| i < q < t.len() implies #[trigger] grant_key(t[q]) != grant_key(t[i]) by {
                    assert(grant_key(g[q]) != grant_key(g[i]));
                }
                assert(grant_key(g.last()) != k);
            }
            assert(m.contains_key(k) && m[k] == g[i].1);
            assert(grants_app(m, g[i].0));
        }
    }
}

} // verus!
