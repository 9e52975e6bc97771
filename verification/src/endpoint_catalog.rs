//! Host-configured resident endpoint routes and the registration index that
//! names the endpoints a resident host can compose.

use std::time::Duration;
use vstd::prelude::*;

use crate::text::{
    any_whitespace, chars_of, compare_chars, debug_form, debug_text, has_ws, lemma_seq_lt_transitive,
    lemma_seq_lt_trichotomy, push_str, seq_lt,
};

verus! {

/// Total nanoseconds held by a `Duration`, as `Duration::as_nanos` reports them.
pub uninterp spec fn duration_as_nanos(d: Duration) -> u128;

/// `Duration::as_nanos`: the whole span in nanoseconds.
#[verifier::external_body]
fn duration_nanos(d: &Duration) -> (n: u128)
    ensures
        n == duration_as_nanos(*d),
{
    d.as_nanos()
}

/// `Duration::from_millis`: a span of `ms` milliseconds.
#[verifier::external_body]
pub fn duration_from_millis(ms: u64) -> (d: Duration)
    ensures
        duration_as_nanos(d) == ms as u128 * 1_000_000,
{
    Duration::from_millis(ms)
}

/// A route or registration key: non-empty and free of whitespace.
pub open spec fn valid_route_id(id: Seq<char>) -> bool {
    id.len() > 0 && !has_ws(id)
}

/// Whether `id` is a usable routing key.
pub fn is_valid_route_id(id: &str) -> (b: bool)
    ensures
        b == valid_route_id(id@),
{
    let v = chars_of(id);
    v.len() > 0 && !any_whitespace(&v)
}

/// A host-configured catalog route for one browser or resident session.
///
/// The route is selected by the host after it admits the carrier; it is never
/// accepted from the client, so a client cannot switch itself to an endpoint
/// the host did not choose.
#[derive(Debug, PartialEq, Eq)]
pub struct ResidentEndpointRoute {
    id: String,
    notice_poll_interval: Duration,
}

/// The mathematical content of a route.
pub struct ResidentEndpointRouteView {
    pub id: Seq<char>,
    pub notice_poll_interval: Duration,
}

impl View for ResidentEndpointRoute {
    type V = ResidentEndpointRouteView;

    closed spec fn view(&self) -> ResidentEndpointRouteView {
        ResidentEndpointRouteView { id: self.id@, notice_poll_interval: self.notice_poll_interval }
    }
}

impl Clone for ResidentEndpointRoute {
    fn clone(&self) -> (r: Self)
        ensures
            r@ == self@,
    {
        ResidentEndpointRoute { id: self.id.clone(), notice_poll_interval: self.notice_poll_interval }
    }
}

/// Why a host's configured resident route is unusable before admission.
#[derive(Debug, PartialEq, Eq)]
pub enum ResidentEndpointRouteError {
    InvalidId { id: String },
    ZeroNoticePollInterval,
}

/// The mathematical content of a route error.
pub enum RouteErrorView {
    InvalidId(Seq<char>),
    ZeroNoticePollInterval,
}

impl View for ResidentEndpointRouteError {
    type V = RouteErrorView;

    open spec fn view(&self) -> RouteErrorView {
        match self {
            ResidentEndpointRouteError::InvalidId { id } => RouteErrorView::InvalidId(id@),
            ResidentEndpointRouteError::ZeroNoticePollInterval => RouteErrorView::ZeroNoticePollInterval,
        }
    }
}

/// What `ResidentEndpointRoute::new` decides for a given id and interval length.
pub open spec fn route_outcome(id: Seq<char>, nanos: u128, d: Duration) -> Result<
    ResidentEndpointRouteView,
    RouteErrorView,
> {
    if !valid_route_id(id) {
        Err(RouteErrorView::InvalidId(id))
    } else if nanos == 0 {
        Err(RouteErrorView::ZeroNoticePollInterval)
    } else {
        Ok(ResidentEndpointRouteView { id, notice_poll_interval: d })
    }
}

impl ResidentEndpointRoute {
    /// Validate a route id and its notice cadence.
    pub fn new(id: &str, notice_poll_interval: Duration) -> (r: Result<Self, ResidentEndpointRouteError>)
        ensures
            match (r, route_outcome(id@, duration_as_nanos(notice_poll_interval), notice_poll_interval)) {
                (Ok(route), Ok(v)) => route@ == v,
                (Err(e), Err(v)) => e@ == v,
                _ => false,
            },
    {
        if !is_valid_route_id(id) {
            return Err(ResidentEndpointRouteError::InvalidId { id: id.to_owned() });
        }
        if duration_nanos(&notice_poll_interval) == 0 {
            return Err(ResidentEndpointRouteError::ZeroNoticePollInterval);
        }
        Ok(ResidentEndpointRoute { id: id.to_owned(), notice_poll_interval })
    }

    /// The host-local routing key.
    pub fn id(&self) -> (r: &str)
        ensures
            r@ == self@.id,
    {
        self.id.as_str()
    }

    /// How often the session loop polls this endpoint for revision notices.
    pub fn notice_poll_interval(&self) -> (r: Duration)
        ensures
            r == self@.notice_poll_interval,
    {
        self.notice_poll_interval
    }
}

} // verus!

verus! {

/// A host-visible registered endpoint. The id is a local routing key, not a
/// client-supplied authority claim.
#[derive(Debug, PartialEq, Eq)]
pub struct ResidentEndpointOffer {
    pub id: String,
    pub label: String,
}

/// Why resident endpoint selection failed before the session loop started.
#[derive(Debug, PartialEq, Eq)]
pub enum ResidentEndpointCatalogError {
    InvalidId { id: String },
    Duplicate { id: String },
    Unknown { id: String },
    Open { id: String, reason: String },
}

pub enum CatalogErrorView {
    InvalidId(Seq<char>),
    Duplicate(Seq<char>),
    Unknown(Seq<char>),
    Open(Seq<char>, Seq<char>),
}

pub open spec fn catalog_error_view(e: ResidentEndpointCatalogError) -> CatalogErrorView {
    match e {
        ResidentEndpointCatalogError::InvalidId { id } => CatalogErrorView::InvalidId(id@),
        ResidentEndpointCatalogError::Duplicate { id } => CatalogErrorView::Duplicate(id@),
        ResidentEndpointCatalogError::Unknown { id } => CatalogErrorView::Unknown(id@),
        ResidentEndpointCatalogError::Open { id, reason } => CatalogErrorView::Open(id@, reason@),
    }
}

impl ResidentEndpointCatalogError {
    /// The sentence this error reports.
    pub fn message(&self) -> (r: String)
        ensures
            r@ == match *self {
                ResidentEndpointCatalogError::InvalidId { id } =>
                    "resident endpoint id is empty or contains whitespace: "@ + debug_form(id@),
                ResidentEndpointCatalogError::Duplicate { id } => "resident endpoint "@
                    + debug_form(id@) + " is already registered"@,
                ResidentEndpointCatalogError::Unknown { id } => "resident endpoint "@ + debug_form(
                    id@,
                ) + " is not registered"@,
                ResidentEndpointCatalogError::Open { id, reason } => "resident endpoint "@
                    + debug_form(id@) + " could not open: "@ + reason@,
            },
    {
        match self {
            ResidentEndpointCatalogError::InvalidId { id } => {
                let mut out = "resident endpoint id is empty or contains whitespace: ".to_owned();
                let quoted = debug_text(id.as_str());
                push_str(&mut out, quoted.as_str());
                out
            },
            ResidentEndpointCatalogError::Duplicate { id } => {
                let mut out = "resident endpoint ".to_owned();
                let quoted = debug_text(id.as_str());
                push_str(&mut out, quoted.as_str());
                push_str(&mut out, " is already registered");
                out
            },
            ResidentEndpointCatalogError::Unknown { id } => {
                let mut out = "resident endpoint ".to_owned();
                let quoted = debug_text(id.as_str());
                push_str(&mut out, quoted.as_str());
                push_str(&mut out, " is not registered");
                out
            },
            ResidentEndpointCatalogError::Open { id, reason } => {
                let mut out = "resident endpoint ".to_owned();
                let quoted = debug_text(id.as_str());
                push_str(&mut out, quoted.as_str());
                push_str(&mut out, " could not open: ");
                push_str(&mut out, reason.as_str());
                out
            },
        }
    }
}

/// Host-owned registrations for the endpoints it can compose: each id with
/// its label and the factory that opens it, kept in id order.
pub struct ResidentEndpointCatalog<F> {
    registrations: Vec<(String, String, F)>,
}

/// The ids and labels of a registration list.
pub open spec fn offer_views<F>(s: Seq<(String, String, F)>) -> Seq<(Seq<char>, Seq<char>)> {
    s.map_values(|r: (String, String, F)| (r.0@, r.1@))
}

/// Ids strictly ascending, hence each registered once.
pub open spec fn ids_ascending(s: Seq<(Seq<char>, Seq<char>)>) -> bool {
    forall|i: int, j: int| 0 <= i < j < s.len() ==> seq_lt(#[trigger] s[i].0, #[trigger] s[j].0)
}

/// Where `id` goes in an ascending registration list.
pub open spec fn offer_pos(s: Seq<(Seq<char>, Seq<char>)>, id: Seq<char>) -> nat
    decreases s.len(),
{
    if s.len() == 0 {
        0
    } else if seq_lt(s[0].0, id) {
        1 + offer_pos(s.drop_first(), id)
    } else {
        0
    }
}

/// Whether `id` is registered.
pub open spec fn offers_contain(s: Seq<(Seq<char>, Seq<char>)>, id: Seq<char>) -> bool {
    exists|i: int| 0 <= i < s.len() && #[trigger] s[i].0 == id
}

proof fn lemma_offer_pos(s: Seq<(Seq<char>, Seq<char>)>, id: Seq<char>, p: int)
    requires
        0 <= p <= s.len(),
        forall|q: int| 0 <= q < p ==> seq_lt(#[trigger] s[q].0, id),
        p == s.len() || !seq_lt(s[p].0, id),
    ensures
        offer_pos(s, id) == p,
    decreases p,
{
    if p > 0 {
        let t = s.drop_first();
        assert forall|q: int| 0 <= q < p - 1 implies seq_lt(#[trigger] t[q].0, id) by {
            assert(seq_lt(s[q + 1].0, id));
        }
        lemma_offer_pos(t, id, p - 1);
    }
}

impl<F> ResidentEndpointCatalog<F> {
    pub closed spec fn offers_spec(&self) -> Seq<(Seq<char>, Seq<char>)> {
        offer_views(self.registrations@)
    }

    /// Registered ids ascend.
    pub open spec fn wf(&self) -> bool {
        ids_ascending(self.offers_spec())
    }

    /// A catalog with nothing registered.
    pub fn new() -> (r: Self)
        ensures
            r.wf(),
            r.offers_spec() == Seq::<(Seq<char>, Seq<char>)>::empty(),
    {
        let r = ResidentEndpointCatalog { registrations: Vec::new() };
        assert(r.offers_spec() =~= Seq::<(Seq<char>, Seq<char>)>::empty());
        r
    }

    /// List route keys and labels, in id order, without opening anything.
    pub fn offers(&self) -> (r: Vec<ResidentEndpointOffer>)
        ensures
            r@.map_values(|o: ResidentEndpointOffer| (o.id@, o.label@)) == self.offers_spec(),
    {
        let mut out: Vec<ResidentEndpointOffer> = Vec::new();
        let mut i: usize = 0;
        while i < self.registrations.len()
            invariant
                i <= self.registrations@.len(),
                out@.len() == i,
                forall|q: int|
                    0 <= q < i ==> (#[trigger] out@[q]).id@ == self.registrations@[q].0@
                        && out@[q].label@ == self.registrations@[q].1@,
            decreases self.registrations@.len() - i,
        {
            out.push(
                ResidentEndpointOffer {
                    id: self.registrations[i].0.clone(),
                    label: self.registrations[i].1.clone(),
                },
            );
            i = i + 1;
        }
        assert(out@.map_values(|o: ResidentEndpointOffer| (o.id@, o.label@)) =~= self.offers_spec());
        out
    }

    /// Register `factory` under `id` and `label`. The id must be a valid
    /// routing key not yet registered.
    pub fn register(&mut self, id: &str, label: &str, factory: F) -> (r: Result<
        (),
        ResidentEndpointCatalogError,
    >)
        requires
            old(self).wf(),
        ensures
            final(self).wf(),
            ids_ascending(final(self).offers_spec()),
            r is Ok ==> final(self).factory_for(id@) == factory,
            forall|k: Seq<char>|
                k != id@ && offers_contain(old(self).offers_spec(), k) ==> #[trigger] final(self).factory_for(k)
                    == old(self).factory_for(k),
            match r {
                Ok(()) => valid_route_id(id@) && !offers_contain(old(self).offers_spec(), id@)
                    && final(self).offers_spec() == old(self).offers_spec().insert(
                    offer_pos(old(self).offers_spec(), id@) as int,
                    (id@, label@),
                ),
                Err(e) => final(self).offers_spec() == old(self).offers_spec() && if !valid_route_id(
                    id@,
                ) {
                    catalog_error_view(e) == CatalogErrorView::InvalidId(id@)
                } else {
                    offers_contain(old(self).offers_spec(), id@) && catalog_error_view(e)
                        == CatalogErrorView::Duplicate(id@)
                },
            },
    {
        if !is_valid_route_id(id) {
            return Err(ResidentEndpointCatalogError::InvalidId { id: id.to_owned() });
        }
        let ghost s = self.offers_spec();
        let key = chars_of(id);
        let mut p: usize = 0;
        let mut stop = false;
        while p < self.registrations.len() && !stop
            invariant
                p <= self.registrations@.len(),
                s == offer_views(self.registrations@),
                ids_ascending(s),
                key@ == id@,
                forall|q: int| 0 <= q < p ==> seq_lt(#[trigger] s[q].0, id@),
                stop ==> p < s.len() && !seq_lt(s[p as int].0, id@),
            decreases self.registrations@.len() - p + (if stop { 0int } else { 1int }),
        {
            let other = chars_of(self.registrations[p].0.as_str());
            if compare_chars(&other, &key) < 0 {
                p = p + 1;
            } else {
                stop = true;
            }
        }
        proof {
            lemma_offer_pos(s, id@, p as int);
        }
        if p < self.registrations.len() {
            let other = chars_of(self.registrations[p].0.as_str());
            if compare_chars(&other, &key) == 0 {
                proof {
                    assert(s[p as int].0 == id@);
                }
                return Err(ResidentEndpointCatalogError::Duplicate { id: id.to_owned() });
            }
            proof {
                lemma_seq_lt_trichotomy(s[p as int].0, id@);
            }
        }
        proof {
            assert(!offers_contain(s, id@)) by {
                if offers_contain(s, id@) {
                    let i = choose|i: int| 0 <= i < s.len() && #[trigger] s[i].0 == id@;
                    if i < p {
                        lemma_seq_lt_trichotomy(s[i].0, id@);
                    } else if i > p {
                        assert(seq_lt(s[p as int].0, s[i].0));
                        lemma_seq_lt_trichotomy(s[i].0, id@);
                        lemma_seq_lt_trichotomy(id@, s[p as int].0);
                        lemma_seq_lt_transitive(id@, s[p as int].0, s[i].0);
                    }
                }
            }
        }
        let ghost entry = (id@, label@);
        let ghost before = *self;
        self.registrations.insert(p, (id.to_owned(), label.to_owned(), factory));
        proof {
            let n = offer_views(self.registrations@);
            assert(n =~= s.insert(p as int, entry));
            assert(ids_ascending(n)) by {
                assert forall|i: int, j: int| 0 <= i < j < n.len() implies seq_lt(
                    #[trigger] n[i].0,
                    #[trigger] n[j].0,
                ) by {
                    if j < p {
                    } else if j == p {
                    } else if i < p {
                        if j - 1 > p {
                            assert(seq_lt(s[p as int].0, s[j - 1].0));
                            lemma_seq_lt_transitive(id@, s[p as int].0, s[j - 1].0);
                        }
                        lemma_seq_lt_transitive(s[i].0, id@, s[j - 1].0);
                    } else if i == p {
                        if j - 1 > p {
                            assert(seq_lt(s[p as int].0, s[j - 1].0));
                            lemma_seq_lt_transitive(id@, s[p as int].0, s[j - 1].0);
                        }
                    } else {
                        assert(seq_lt(s[i - 1].0, s[j - 1].0));
                    }
                }
            }
            assert(self.registrations@[p as int].0@ == id@);
            self.lemma_factory_at(p as int);
            assert forall|k: Seq<char>|
                k != id@ && offers_contain(s, k) implies #[trigger] self.factory_for(k)
                    == before.factory_for(k) by {
                let i = choose|i: int| 0 <= i < s.len() && #[trigger] s[i].0 == k;
                assert(before.registrations@[i].0@ == k);
                before.lemma_factory_at(i);
                if i < p {
                    assert(self.registrations@[i] == before.registrations@[i]);
                    self.lemma_factory_at(i);
                } else {
                    assert(self.registrations@[i + 1] == before.registrations@[i]);
                    self.lemma_factory_at(i + 1);
                }
            }
        }
        Ok(())
    }

    /// Under distinct ids, the factory registered under the id at `i` is the
    /// one stored at `i`.
    proof fn lemma_factory_at(&self, i: int)
        requires
            self.wf(),
            0 <= i < self.registrations@.len(),
        ensures
            self.factory_for(self.registrations@[i].0@) == self.registrations@[i].2,
    {
        let k = self.registrations@[i].0@;
        let s = self.offers_spec();
        assert(s[i].0 == k);
        assert(exists|j: int| 0 <= j < self.registrations@.len() && #[trigger] self.registrations@[j].0@ == k);
        assert forall|j: int| 0 <= j < self.registrations@.len() && #[trigger] self.registrations@[j].0@ == k implies j == i by {
            assert(s[j].0 == k);
            if j < i {
                assert(seq_lt(s[j].0, s[i].0));
                lemma_seq_lt_trichotomy(k, k);
            } else if i < j {
                assert(seq_lt(s[i].0, s[j].0));
                lemma_seq_lt_trichotomy(k, k);
            }
        }
    }

    /// Where `id` is registered.
    pub fn position(&self, id: &str) -> (r: Result<usize, ResidentEndpointCatalogError>)
        ensures
            match r {
                Ok(i) => i < self.offers_spec().len() && self.offers_spec()[i as int].0 == id@,
                Err(e) => !offers_contain(self.offers_spec(), id@) && catalog_error_view(e)
                    == CatalogErrorView::Unknown(id@),
            },
    {
        let key = chars_of(id);
        let mut i: usize = 0;
        while i < self.registrations.len()
            invariant
                i <= self.registrations@.len(),
                key@ == id@,
                forall|q: int| 0 <= q < i ==> (#[trigger] self.registrations@[q]).0@ != id@,
            decreases self.registrations@.len() - i,
        {
            let other = chars_of(self.registrations[i].0.as_str());
            if compare_chars(&other, &key) == 0 {
                return Ok(i);
            }
            i = i + 1;
        }
        proof {
            let s = offer_views(self.registrations@);
            if offers_contain(s, id@) {
                let q = choose|q: int| 0 <= q < s.len() && #[trigger] s[q].0 == id@;
                assert(self.registrations@[q].0@ == id@);
            }
        }
        Err(ResidentEndpointCatalogError::Unknown { id: id.to_owned() })
    }

    /// The factory registered under `id`.
    pub closed spec fn factory_for(&self, id: Seq<char>) -> F {
        self.registrations@[choose|i: int|
            0 <= i < self.registrations@.len() && #[trigger] self.registrations@[i].0@ == id].2
    }

    /// Open the endpoint registered under `id` for an admitted `context`:
    /// its factory's endpoint, or the factory's reason wrapped as an open
    /// failure. An id nobody registered opens nothing.
    pub fn open<C, E>(&self, id: &str, context: &C) -> (r: Result<E, ResidentEndpointCatalogError>)
        where
            F: Fn(&C) -> Result<E, String>,
        requires
            self.wf(),
            offers_contain(self.offers_spec(), id@) ==> call_requires(
                self.factory_for(id@),
                (context,),
            ),
        ensures
            !offers_contain(self.offers_spec(), id@) ==> (r matches Err(e) && catalog_error_view(e)
                == CatalogErrorView::Unknown(id@)),
            offers_contain(self.offers_spec(), id@) ==> match r {
                Ok(endpoint) => call_ensures(
                    self.factory_for(id@),
                    (context,),
                    Ok::<E, String>(endpoint),
                ),
                Err(e) => exists|reason: String|
                    call_ensures(self.factory_for(id@), (context,), Err::<E, String>(reason))
                        && catalog_error_view(e) == CatalogErrorView::Open(id@, reason@),
            },
    {
        let index = match self.position(id) {
            Ok(i) => i,
            Err(e) => return Err(e),
        };
        proof {
            let s = self.offers_spec();
            assert(offers_contain(s, id@));
            let c = choose|i: int|
                0 <= i < self.registrations@.len() && #[trigger] self.registrations@[i].0@ == id@;
            assert(self.registrations@[index as int].0@ == id@);
            if c != index as int {
                if c < index as int {
                    assert(seq_lt(s[c].0, s[index as int].0));
                } else {
                    assert(seq_lt(s[index as int].0, s[c].0));
                }
                lemma_seq_lt_trichotomy(id@, id@);
            }
        }
        let factory = &self.registrations[index].2;
        match factory(context) {
            Ok(endpoint) => Ok(endpoint),
            Err(reason) => Err(open_failed(id, reason)),
        }
    }
}

/// The error for a registration whose factory could not open.
pub fn open_failed(id: &str, reason: String) -> (r: ResidentEndpointCatalogError)
    ensures
        catalog_error_view(r) == CatalogErrorView::Open(id@, reason@),
{
    ResidentEndpointCatalogError::Open { id: id.to_owned(), reason }
}

} // verus!
