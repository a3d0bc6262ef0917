//! What the client of the game's web interface knows and decides: the sign-in
//! address, whether its token is still good, what the headers of an order
//! listing say, and how the pages of a listing are put together.
//!
//! Sending the requests is left to the caller.

use crate::market::order::Order;
use crate::number::{decimal_text, decimal_u64, parse_u64, push_decimal};
use vstd::prelude::*;
use vstd::string::*;

verus! {

/// How many page requests of one region may be under way at once.
pub const PAGE_PERMITS: usize = 10;

/// How long a page request waits before it is sent, in milliseconds.
pub const PAGE_DELAY_MILLIS: u64 = 20;

/// How long a page request may take, in seconds.
pub const PAGE_TIMEOUT_SECS: u64 = 30;

/// A token as it is kept between runs.
#[derive(Debug)]
pub struct TokenData {
    pub access_token: String,
    pub refresh_token: String,
    pub expires_at: u64,
}

/// A token as the sign-in service hands it out.
#[derive(Debug)]
pub struct TokenResponse {
    pub access_token: String,
    pub refresh_token: String,
    pub expires_in: u64,
}

/// The client's settings and the token it holds.
pub struct EveApiClient {
    pub client_id: String,
    pub client_secret: String,
    pub character_id: String,
    pub redirect_url: String,
    pub access_token: Option<String>,
    pub expires_at: Option<u64>,
}

/// The address at which a user signs in for the given client.
pub open spec fn authorization_url(client_id: Seq<char>, redirect_url: Seq<char>) -> Seq<char> {
    "https://login.eveonline.com/v2/oauth/authorize/?response_type=code&client_id="@ + client_id
        + "&redirect_uri="@ + redirect_url + "&scope="@
        + "esi-assets.read_assets.v1%20esi-location.read_location.v1%20esi-location.read_online.v1%20esi-ui.open_window.v1%20esi-ui.write_waypoint.v1"@
}

/// When a token handed out at `now` runs out.
pub open spec fn expiry_of(now: u64, expires_in: u64) -> u64 {
    if now + expires_in <= u64::MAX {
        (now + expires_in) as u64
    } else {
        u64::MAX
    }
}

impl TokenData {
    /// The token to keep for a response that came in at `now` (seconds since
    /// the epoch): it runs out `expires_in` seconds later.
    pub fn from_response(response: TokenResponse, now: u64) -> (token: TokenData)
        ensures
            token.access_token == response.access_token,
            token.refresh_token == response.refresh_token,
            token.expires_at == expiry_of(now, response.expires_in),
    {
        TokenData {
            access_token: response.access_token,
            refresh_token: response.refresh_token,
            expires_at: now.saturating_add(response.expires_in),
        }
    }
}

impl EveApiClient {
    /// A client with the given settings, holding the kept token if there is
    /// one.
    pub fn new(
        client_id: String,
        client_secret: String,
        character_id: String,
        redirect_url: String,
        kept: Option<TokenData>,
    ) -> (client: EveApiClient)
        ensures
            client.client_id == client_id,
            client.client_secret == client_secret,
            client.character_id == character_id,
            client.redirect_url == redirect_url,
            match kept {
                Some(token) => client.access_token == Some(token.access_token)
                    && client.expires_at == Some(token.expires_at),
                None => client.access_token is None && client.expires_at is None,
            },
    {
        match kept {
            Some(token) => EveApiClient {
                client_id,
                client_secret,
                character_id,
                redirect_url,
                access_token: Some(token.access_token),
                expires_at: Some(token.expires_at),
            },
            None => EveApiClient {
                client_id,
                client_secret,
                character_id,
                redirect_url,
                access_token: None,
                expires_at: None,
            },
        }
    }

    /// The address at which the user signs in.
    pub fn get_authorization_url(&self) -> (url: String)
        ensures
            url@ == authorization_url(self.client_id@, self.redirect_url@),
    {
        let mut url = String::from_str(
            "https://login.eveonline.com/v2/oauth/authorize/?response_type=code&client_id=",
        );
        url.append(self.client_id.as_str());
        url.append("&redirect_uri=");
        url.append(self.redirect_url.as_str());
        url.append("&scope=");
        url.append(
            "esi-assets.read_assets.v1%20esi-location.read_location.v1%20esi-location.read_online.v1%20esi-ui.open_window.v1%20esi-ui.write_waypoint.v1",
        );
        url
    }

    /// The address at which this client's character's location is asked for.
    pub fn location_url(&self) -> (url: String)
        ensures
            url@ == location_url_text(self.character_id@),
    {
        let mut url = String::from_str("https://esi.evetech.net/latest/characters/");
        url.append(self.character_id.as_str());
        url.append("/location/");
        url
    }

    /// The token held, if any.
    pub fn get_access_token(&self) -> (token: Option<String>)
        ensures
            token == self.access_token,
    {
        match &self.access_token {
            Some(held) => Some(held.clone()),
            None => None,
        }
    }

    /// Whether the token has to be renewed before the next request: it has
    /// when `now` lies after the time at which it runs out, and a client that
    /// knows no such time counts as run out at the epoch.
    pub fn needs_refresh(&self, now: u64) -> (due: bool)
        ensures
            due == (now > match self.expires_at {
                Some(at) => at,
                None => 0,
            }),
    {
        match self.expires_at {
            Some(at) => now > at,
            None => now > 0,
        }
    }

    /// Takes a renewed token into use.
    pub fn install_token(&mut self, token: &TokenData)
        ensures
            final(self).access_token == Some(token.access_token),
            final(self).expires_at == Some(token.expires_at),
            final(self).client_id == old(self).client_id,
            final(self).client_secret == old(self).client_secret,
            final(self).character_id == old(self).character_id,
            final(self).redirect_url == old(self).redirect_url,
    {
        self.access_token = Some(token.access_token.clone());
        self.expires_at = Some(token.expires_at);
    }
}


/// The address of one page of a region's order listing.
pub open spec fn orders_url_text(region: u64, page: u64) -> Seq<char> {
    "https://esi.evetech.net/latest/markets/"@ + decimal_text(region as nat)
        + "/orders/?datasource=tranquility&order_type=all&page="@ + decimal_text(page as nat)
}

/// The address at which a character's location is asked for.
pub open spec fn location_url_text(character_id: Seq<char>) -> Seq<char> {
    "https://esi.evetech.net/latest/characters/"@ + character_id + "/location/"@
}

/// The address of one page of a region's order listing; pages count from one.
pub fn orders_url(region: u64, page: u64) -> (url: String)
    ensures
        url@ == orders_url_text(region, page),
{
    let mut url = String::from_str("https://esi.evetech.net/latest/markets/");
    push_decimal(&mut url, region);
    url.append("/orders/?datasource=tranquility&order_type=all&page=");
    push_decimal(&mut url, page);
    url
}

/// A header of a response: absent, present but not text, or its text.
#[derive(Debug)]
pub enum Header {
    Missing,
    Unreadable,
    Text(String),
}

/// What went wrong with one page of a listing.
#[derive(Clone, Copy, Debug, PartialEq, Eq)]
pub enum PageFault {
    /// The request did not get through.
    Transport,
    /// The answer was not a success.
    Status,
    /// The answer could not be read as orders.
    Body,
    /// The work on the page was given up.
    Task,
}

/// Why a region could not be refreshed.
#[derive(Clone, Copy, Debug, PartialEq, Eq)]
pub enum FetchCause {
    /// The first request did not get through.
    Probe,
    PagesMissing,
    PagesUnreadable,
    PagesMalformed,
    ExpiryMissing,
    ExpiryUnreadable,
    ExpiryMalformed,
    /// A page failed; pages count from one.
    Page { page: u64, fault: PageFault },
}

/// A refresh that failed: the region and the cause.
#[derive(Clone, Copy, Debug, PartialEq, Eq)]
pub struct FetchError {
    pub region: u64,
    pub cause: FetchCause,
}

/// The time that `chrono::DateTime::parse_from_rfc2822` reads from a text, in
/// seconds since the Unix epoch, or `None` where it reads none.
pub uninterp spec fn rfc2822_seconds(text: Seq<char>) -> Option<i64>;

/// Reads a date in the format of mail and web headers with
/// `chrono::DateTime::parse_from_rfc2822` and gives its `timestamp`. The
/// result depends on the text alone.
#[verifier::external_body]
fn parse_rfc2822(text: &str) -> (seconds: Option<i64>)
    ensures
        seconds == rfc2822_seconds(text@),
{
    match chrono::DateTime::parse_from_rfc2822(text) {
        Ok(time) => Some(time.timestamp()),
        Err(_) => None,
    }
}

/// What the page count header gives: the count, where the text writes a
/// number of at least one. A listing has at least one page, so a count of
/// zero is as malformed as a text that is no number.
pub open spec fn pages_of(header: Header) -> Result<u64, FetchCause> {
    match header {
        Header::Missing => Err(FetchCause::PagesMissing),
        Header::Unreadable => Err(FetchCause::PagesUnreadable),
        Header::Text(text) => match decimal_u64(text@) {
            Some(count) => if count >= 1 {
                Ok(count)
            } else {
                Err(FetchCause::PagesMalformed)
            },
            None => Err(FetchCause::PagesMalformed),
        },
    }
}

/// What the expiry header gives, once its text has been read as a date.
pub open spec fn expiry_given(header: Header, seconds: Option<i64>) -> Result<i64, FetchCause> {
    match header {
        Header::Missing => Err(FetchCause::ExpiryMissing),
        Header::Unreadable => Err(FetchCause::ExpiryUnreadable),
        Header::Text(_) => match seconds {
            Some(at) => Ok(at),
            None => Err(FetchCause::ExpiryMalformed),
        },
    }
}

/// What the two headers give together: the page count and the deadline, or
/// the first thing that is amiss, the page count being looked at first.
pub open spec fn metadata_given(pages: Header, expires: Header, seconds: Option<i64>) -> Result<
    (u64, i64),
    FetchCause,
> {
    match pages_of(pages) {
        Err(cause) => Err(cause),
        Ok(count) => match expiry_given(expires, seconds) {
            Err(cause) => Err(cause),
            Ok(at) => Ok((count, at)),
        },
    }
}

/// The headers give a page count and a deadline exactly where the page count
/// header is a text that writes a number of at least one and the expiry
/// header is a text that reads as a date; the two are then that number and
/// that date.
pub proof fn lemma_metadata_given(pages: Header, expires: Header, seconds: Option<i64>)
    ensures
        metadata_given(pages, expires, seconds) is Ok <==> {
            &&& pages is Text
            &&& decimal_u64(pages->Text_0@) is Some
            &&& decimal_u64(pages->Text_0@)->Some_0 >= 1
            &&& expires is Text
            &&& seconds is Some
        },
        metadata_given(pages, expires, seconds) is Ok ==> metadata_given(
            pages,
            expires,
            seconds,
        )->Ok_0 == (decimal_u64(pages->Text_0@)->Some_0, seconds->Some_0),
{
}

/// What the expiry header's text reads as: a time in seconds since the
/// epoch, or nothing where there is no text or the text is no date.
pub open spec fn seconds_of(header: Header) -> Option<i64> {
    match header {
        Header::Text(text) => rfc2822_seconds(text@),
        _ => None,
    }
}

/// Reads the page count header. A count is given only where it is at least
/// one.
pub fn read_page_count(header: &Header) -> (count: Result<u64, FetchCause>)
    ensures
        count == pages_of(*header),
        count is Ok ==> count->Ok_0 >= 1,
{
    match header {
        Header::Missing => Err(FetchCause::PagesMissing),
        Header::Unreadable => Err(FetchCause::PagesUnreadable),
        Header::Text(text) => match parse_u64(text.as_str()) {
            Some(count) => {
                if count >= 1 {
                    Ok(count)
                } else {
                    Err(FetchCause::PagesMalformed)
                }
            },
            None => Err(FetchCause::PagesMalformed),
        },
    }
}

/// Puts the page count and the deadline together, given what the expiry
/// header's text was read as.
pub fn metadata_from(pages: &Header, expires: &Header, seconds: Option<i64>) -> (metadata: Result<
    (u64, i64),
    FetchCause,
>)
    ensures
        metadata == metadata_given(*pages, *expires, seconds),
        metadata is Ok ==> metadata->Ok_0.0 >= 1,
{
    let count = match read_page_count(pages) {
        Ok(count) => count,
        Err(cause) => {
            return Err(cause);
        },
    };
    match expires {
        Header::Missing => Err(FetchCause::ExpiryMissing),
        Header::Unreadable => Err(FetchCause::ExpiryUnreadable),
        Header::Text(_) => match seconds {
            Some(at) => Ok((count, at)),
            None => Err(FetchCause::ExpiryMalformed),
        },
    }
}

/// Reads the page count and the deadline of a listing from the headers of its
/// first page.
pub fn order_metadata(pages: &Header, expires: &Header) -> (metadata: Result<
    (u64, i64),
    FetchCause,
>)
    ensures
        metadata == metadata_given(*pages, *expires, seconds_of(*expires)),
        metadata is Ok ==> metadata->Ok_0.0 >= 1,
{
    let seconds = match expires {
        Header::Text(text) => parse_rfc2822(text.as_str()),
        _ => None,
    };
    metadata_from(pages, expires, seconds)
}

/// The orders of the first `n` pages, page after page.
pub open spec fn pages_joined(pages: Seq<Result<Vec<Order>, PageFault>>, n: int) -> Seq<Order>
    decreases n,
{
    if n <= 0 {
        Seq::empty()
    } else {
        pages_joined(pages, n - 1) + match pages[n - 1] {
            Ok(orders) => orders@,
            Err(_) => Seq::empty(),
        }
    }
}

/// None of the first `n` pages failed.
pub open spec fn pages_sound(pages: Seq<Result<Vec<Order>, PageFault>>, n: int) -> bool {
    forall|i: int| 0 <= i < n ==> (#[trigger] pages[i]) is Ok
}

/// Puts the pages of a listing together. Where every page came in, the
/// listing is their orders, page after page; where one failed, nothing is
/// kept and the first page that failed is named.
pub fn collect_pages(pages: Vec<Result<Vec<Order>, PageFault>>) -> (listing: Result<
    Vec<Order>,
    FetchCause,
>)
    requires
        pages@.len() <= u64::MAX,
    ensures
        match listing {
            Ok(orders) => pages_sound(pages@, pages@.len() as int) && orders@ == pages_joined(
                pages@,
                pages@.len() as int,
            ),
            Err(cause) => exists|i: int|
                0 <= i < pages@.len() && pages_sound(pages@, i) && #[trigger] pages@[i] is Err
                    && cause == (FetchCause::Page { page: (i + 1) as u64, fault: pages@[i]->Err_0 }),
        },
{
    let mut orders: Vec<Order> = Vec::new();
    let mut k: usize = 0;
    while k < pages.len()
        invariant
            k <= pages@.len(),
            pages@.len() <= u64::MAX,
            pages_sound(pages@, k as int),
            orders@ == pages_joined(pages@, k as int),
        decreases pages@.len() - k,
    {
        match &pages[k] {
            Ok(page) => {
                let ghost so_far = orders@;
                let mut i: usize = 0;
                while i < page.len()
                    invariant
                        i <= page@.len(),
                        orders@ == so_far + page@.take(i as int),
                    decreases page@.len() - i,
                {
                    orders.push(page[i].clone());
                    assert(page@.take(i + 1) =~= page@.take(i as int).push(page@[i as int]));
                    assert(orders@ =~= so_far + page@.take(i + 1));
                    i += 1;
                }
                assert(page@.take(page@.len() as int) =~= page@);
            },
            Err(fault) => {
                return Err(FetchCause::Page { page: (k + 1) as u64, fault: *fault });
            },
        }
        k += 1;
    }
    Ok(orders)
}


/// The permits that bound how many page requests are under way at once. A
/// request takes a permit before it is issued and gives it back once it has
/// been sent.
pub struct PermitPool {
    permits: usize,
    taken: usize,
}

impl PermitPool {
    /// How many permits there are.
    pub closed spec fn permits(&self) -> nat {
        self.permits as nat
    }

    /// How many permits are out.
    pub closed spec fn taken(&self) -> nat {
        self.taken as nat
    }

    /// No more permits are out than there are.
    pub closed spec fn wf(&self) -> bool {
        self.taken <= self.permits
    }

    /// A pool of the given number of permits, none of them out.
    pub fn new(permits: usize) -> (pool: PermitPool)
        ensures
            pool.wf(),
            pool.permits() == permits,
            pool.taken() == 0,
    {
        PermitPool { permits, taken: 0 }
    }

    /// The pool for the pages of one region.
    pub fn for_pages() -> (pool: PermitPool)
        ensures
            pool.wf(),
            pool.permits() == PAGE_PERMITS,
            pool.taken() == 0,
    {
        PermitPool::new(PAGE_PERMITS)
    }

    /// Takes a permit if one is left, and says whether it did.
    pub fn try_acquire(&mut self) -> (granted: bool)
        requires
            old(self).wf(),
        ensures
            final(self).wf(),
            final(self).permits() == old(self).permits(),
            granted == (old(self).taken() < old(self).permits()),
            final(self).taken() == if granted {
                old(self).taken() + 1
            } else {
                old(self).taken()
            },
    {
        if self.taken < self.permits {
            self.taken = self.taken + 1;
            true
        } else {
            false
        }
    }

    /// Gives a permit back. With none out, nothing changes.
    pub fn release(&mut self)
        requires
            old(self).wf(),
        ensures
            final(self).wf(),
            final(self).permits() == old(self).permits(),
            final(self).taken() == if old(self).taken() > 0 {
                old(self).taken() - 1
            } else {
                0
            },
    {
        if self.taken > 0 {
            self.taken = self.taken - 1;
        }
    }

    /// How many permits are out.
    pub fn in_flight(&self) -> (count: usize)
        requires
            self.wf(),
        ensures
            count == self.taken(),
            count <= self.permits(),
    {
        self.taken
    }

    /// In every state of a pool no more permits are out than it has; of the
    /// pool for pages, no more than ten.
    pub proof fn lemma_bounded(&self)
        requires
            self.wf(),
        ensures
            self.taken() <= self.permits(),
            self.permits() == PAGE_PERMITS ==> self.taken() <= 10,
    {
    }
}


/// What the fetch of a region's pages does next.
#[derive(Clone, Copy, Debug, PartialEq, Eq)]
pub enum FetchStep {
    /// Issue the request for this page; a permit was taken for it.
    Issue(u64),
    /// All permits are out: wait until a request has been sent.
    Wait,
    /// Every page was issued: wait for all of them to come in.
    Join,
}

/// The step that follows when `issued` of `pages` pages were issued and
/// `under_way` requests hold a permit: pages are issued in order, from one,
/// as long as a permit is left.
pub open spec fn step_of(pages: nat, issued: nat, under_way: nat) -> FetchStep {
    if issued >= pages {
        FetchStep::Join
    } else if under_way < PAGE_PERMITS {
        FetchStep::Issue((issued + 1) as u64)
    } else {
        FetchStep::Wait
    }
}

/// The issuing of the page requests of one region: which page comes next, and
/// how many requests hold a permit.
pub struct PageSchedule {
    pages: u64,
    issued: u64,
    pool: PermitPool,
}

impl PageSchedule {
    /// How many pages the listing has.
    pub closed spec fn pages(&self) -> nat {
        self.pages as nat
    }

    /// How many pages were issued so far.
    pub closed spec fn issued(&self) -> nat {
        self.issued as nat
    }

    /// How many requests hold a permit.
    pub closed spec fn under_way(&self) -> nat {
        self.pool.taken()
    }

    /// No more pages were issued than there are, and no more than ten
    /// requests hold a permit.
    pub closed spec fn wf(&self) -> bool {
        &&& self.issued <= self.pages
        &&& self.pool.wf()
        &&& self.pool.permits() == PAGE_PERMITS
    }

    /// The schedule for a listing of the given number of pages, before any
    /// page was issued.
    pub fn new(pages: u64) -> (schedule: PageSchedule)
        ensures
            schedule.wf(),
            schedule.pages() == pages,
            schedule.issued() == 0,
            schedule.under_way() == 0,
    {
        PageSchedule { pages, issued: 0, pool: PermitPool::for_pages() }
    }

    /// Decides the next step, and takes a permit where a page is issued.
    pub fn next_step(&mut self) -> (step: FetchStep)
        requires
            old(self).wf(),
        ensures
            final(self).wf(),
            final(self).pages() == old(self).pages(),
            step == step_of(old(self).pages(), old(self).issued(), old(self).under_way()),
            step is Issue ==> step->Issue_0 == old(self).issued() + 1 && 1 <= step->Issue_0
                <= old(self).pages(),
            final(self).issued() == if step is Issue {
                old(self).issued() + 1
            } else {
                old(self).issued()
            },
            final(self).under_way() == if step is Issue {
                old(self).under_way() + 1
            } else {
                old(self).under_way()
            },
    {
        if self.issued >= self.pages {
            FetchStep::Join
        } else if self.pool.try_acquire() {
            self.issued = self.issued + 1;
            FetchStep::Issue(self.issued)
        } else {
            FetchStep::Wait
        }
    }

    /// Notes that a request has been sent: its permit is free again.
    pub fn page_sent(&mut self)
        requires
            old(self).wf(),
        ensures
            final(self).wf(),
            final(self).pages() == old(self).pages(),
            final(self).issued() == old(self).issued(),
            final(self).under_way() == if old(self).under_way() > 0 {
                old(self).under_way() - 1
            } else {
                0
            },
    {
        self.pool.release();
    }

    /// How many requests hold a permit.
    pub fn in_flight(&self) -> (count: usize)
        requires
            self.wf(),
        ensures
            count == self.under_way(),
            count <= 10,
    {
        self.pool.in_flight()
    }

    /// In every state of a schedule at most ten requests hold a permit, no
    /// more pages were issued than the listing has, and the page numbers stay
    /// within `u64`.
    pub proof fn lemma_bounded(&self)
        requires
            self.wf(),
        ensures
            self.under_way() <= 10,
            self.issued() <= self.pages(),
            self.pages() <= u64::MAX,
    {
    }
}

} // verus!
