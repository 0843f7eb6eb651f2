//! The decisions of automatic scraping: which pagination strategy a site
//! gets, when a listing is exhausted, which page URL to visit, and when a
//! `?page=N` listing is reloaded to keep the page small. The browser work
//! itself happens outside the library.

use vstd::prelude::*;

use crate::detect::{detection_view, Detection};
use crate::dom::{has_sub, occurs_in};
use crate::http::{host_of, url_host};
use crate::model::opt_view;
use crate::names::vec_eq;
use crate::numbers::{parse_u32, parse_unsigned};
use crate::text::{chars_of, string_of};
use crate::time::decimal;
use crate::unicode::{lowercase, to_lowercase};

verus! {

/// Default number of consecutive rounds without product-count growth before
/// the listing is declared exhausted.
pub const NO_GROWTH_LIMIT: usize = 3;

/// Default maximum number of load-more steps, as a safety valve against
/// runaway infinite scroll.
pub const MAX_STEPS: usize = 200;

/// Default product count at which a `?page=N` listing reloads the same page
/// to drop earlier products from the page and keep memory bounded.
pub const DEFAULT_WINDOW_THRESHOLD: usize = 120;

/// The kind of site-specific pagination strategy to use.
#[derive(PartialEq, Eq, Structural, Debug, Clone, Copy)]
pub enum StrategyKind {
    /// Scroll down and click a "load more" button when it appears.
    ScrollClick,
    /// Scroll to the bottom repeatedly; new products load without a button.
    InfiniteScroll,
    /// Navigate `?page=N` for increasing N until a page has no grid.
    Page,
}

/// Options that refine how the auto-scrape strategy is built.
#[derive(Debug, PartialEq)]
pub struct AutoScrapeOptions {
    /// The URL of the listing page to scrape.
    pub url: String,
    /// Force a strategy kind regardless of the site's registered default.
    pub strategy: Option<StrategyKind>,
    /// CSS selector for the load-more button (scroll-click strategy).
    pub button: Option<String>,
    /// Query parameter name for page-based pagination; empty means `page`.
    pub page_param: String,
    /// Whether to run the browser headless (no visible window).
    pub headless: bool,
    /// When the detected product count reaches this threshold on a
    /// `?page=N` URL, the same page is reloaded. `None` means
    /// [`DEFAULT_WINDOW_THRESHOLD`]; `Some(0)` disables windowing.
    pub window_threshold: Option<usize>,
}

impl Default for AutoScrapeOptions {
    fn default() -> (r: Self)
        ensures
            r.url@.len() == 0,
            r.strategy.is_none(),
            r.button.is_none(),
            r.page_param@.len() == 0,
            !r.headless,
            r.window_threshold.is_none(),
    {
        AutoScrapeOptions {
            url: String::new(),
            strategy: None,
            button: None,
            page_param: String::new(),
            headless: false,
            window_threshold: None,
        }
    }
}

/// The effective page parameter name: `page` when none is given.
pub open spec fn page_param_of(page_param: Seq<char>) -> Seq<char> {
    if page_param.len() == 0 {
        "page"@
    } else {
        page_param
    }
}

impl AutoScrapeOptions {
    /// The effective page parameter name (defaults to `page`).
    pub fn page_param_name(&self) -> (r: &str)
        ensures
            r@ == page_param_of(self.page_param@),
    {
        if self.page_param.as_str().is_empty() {
            "page"
        } else {
            self.page_param.as_str()
        }
    }

    /// The effective window threshold (defaults to
    /// [`DEFAULT_WINDOW_THRESHOLD`]).
    pub fn window_threshold(&self) -> (r: usize)
        ensures
            r == match self.window_threshold {
                Some(t) => t,
                None => DEFAULT_WINDOW_THRESHOLD,
            },
    {
        match self.window_threshold {
            Some(t) => t,
            None => DEFAULT_WINDOW_THRESHOLD,
        }
    }
}

/// Whether a window reload should be triggered: the count has reached a
/// non-zero threshold on a paginated `?page=N` listing.
pub fn should_window_reload(count: usize, threshold: usize, has_page_param: bool) -> (r: bool)
    ensures
        r == (has_page_param && threshold != 0 && count >= threshold),
{
    has_page_param && threshold != 0 && count >= threshold
}

/// The registered default strategy of a host: infinite scroll for the known
/// infinite-scroll sites, scroll-and-click otherwise.
pub open spec fn default_strategy_of(host: Seq<char>) -> StrategyKind {
    if host == "www.parfumerie.com.ar"@ || host == "parfumerie.com.ar"@ {
        StrategyKind::InfiniteScroll
    } else {
        StrategyKind::ScrollClick
    }
}

/// Whether the characters of `s` are those of `lit`.
fn str_is(s: &str, lit: &str) -> (r: bool)
    ensures
        r == (s@ == lit@),
{
    vec_eq(&chars_of(s), &chars_of(lit))
}

/// The default strategy for a host. Unknown hosts default to
/// scroll-and-click, the most common "load more" pattern.
pub fn default_strategy(host: &str) -> (r: StrategyKind)
    ensures
        r == default_strategy_of(host@),
{
    if str_is(host, "www.parfumerie.com.ar") || str_is(host, "parfumerie.com.ar") {
        StrategyKind::InfiniteScroll
    } else {
        StrategyKind::ScrollClick
    }
}

/// The effective strategy kind for `url`: an explicit `options.strategy`
/// wins, otherwise the default of the URL's host applies.
pub fn effective_strategy(url: &str, options: &AutoScrapeOptions) -> (r: StrategyKind)
    ensures
        r == match options.strategy {
            Some(k) => k,
            None => default_strategy_of(
                match url_host(url@) {
                    Some(h) => h,
                    None => seq![],
                },
            ),
        },
{
    match options.strategy {
        Some(k) => k,
        None => {
            let host = host_of(url);
            default_strategy(host.as_str())
        },
    }
}

/// The CSS selectors tried, in order, for a load-more button when no
/// selector is given.
pub fn load_more_selectors() -> (r: Vec<&'static str>)
    ensures
        r@ == seq![
            "[data-role='show-more']",
            "[data-role='load-more']",
            "[data-testid='load-more']",
            "[data-testid='show-more']",
            ".load-more",
            ".loadMore",
            ".load_more",
            ".btn-load-more",
            ".show-more",
            ".showMore",
            ".pagination-next",
        ],
{
    vec![
        "[data-role='show-more']",
        "[data-role='load-more']",
        "[data-testid='load-more']",
        "[data-testid='show-more']",
        ".load-more",
        ".loadMore",
        ".load_more",
        ".btn-load-more",
        ".show-more",
        ".showMore",
        ".pagination-next",
    ]
}

/// Whether `t` contains a known load-more phrase.
pub open spec fn load_more_phrase(t: Seq<char>) -> bool {
    ||| has_sub(t, "cargar más"@)
    ||| has_sub(t, "cargar mas"@)
    ||| has_sub(t, "ver más"@)
    ||| has_sub(t, "ver mas"@)
    ||| has_sub(t, "load more"@)
    ||| has_sub(t, "show more"@)
    ||| has_sub(t, "mostrar más"@)
    ||| has_sub(t, "mostrar mas"@)
    ||| has_sub(t, "ver todos"@)
}

/// A text holds a load-more phrase exactly when one of `cargar más`,
/// `cargar mas`, `ver más`, `ver mas`, `load more`, `show more`,
/// `mostrar más`, `mostrar mas` or `ver todos` occurs in it.
pub proof fn lemma_load_more_phrases(t: Seq<char>)
    ensures
        load_more_phrase(t) <==> (
            occurs_in(t, "cargar más"@)
            || occurs_in(t, "cargar mas"@)
            || occurs_in(t, "ver más"@)
            || occurs_in(t, "ver mas"@)
            || occurs_in(t, "load more"@)
            || occurs_in(t, "show more"@)
            || occurs_in(t, "mostrar más"@)
            || occurs_in(t, "mostrar mas"@)
            || occurs_in(t, "ver todos"@)
        ),
{
    crate::dom::lemma_has_sub_occurs(t, "cargar más"@);
    crate::dom::lemma_has_sub_occurs(t, "cargar mas"@);
    crate::dom::lemma_has_sub_occurs(t, "ver más"@);
    crate::dom::lemma_has_sub_occurs(t, "ver mas"@);
    crate::dom::lemma_has_sub_occurs(t, "load more"@);
    crate::dom::lemma_has_sub_occurs(t, "show more"@);
    crate::dom::lemma_has_sub_occurs(t, "mostrar más"@);
    crate::dom::lemma_has_sub_occurs(t, "mostrar mas"@);
    crate::dom::lemma_has_sub_occurs(t, "ver todos"@);
}

/// Whether `t` contains the characters of `p`.
pub(crate) fn contains_str(t: &Vec<char>, p: &str) -> (r: bool)
    ensures
        r == has_sub(t@, p@),
{
    let pc = chars_of(p);
    crate::prices::find_first(t, &pc).is_some()
}

/// Whether `text` reads as a load-more button (a known phrase, ignoring
/// case).
pub fn text_matches_heuristic(text: &str) -> (r: bool)
    ensures
        r == load_more_phrase(lowercase(text@)),
        r <==> (
            occurs_in(lowercase(text@), "cargar más"@)
            || occurs_in(lowercase(text@), "cargar mas"@)
            || occurs_in(lowercase(text@), "ver más"@)
            || occurs_in(lowercase(text@), "ver mas"@)
            || occurs_in(lowercase(text@), "load more"@)
            || occurs_in(lowercase(text@), "show more"@)
            || occurs_in(lowercase(text@), "mostrar más"@)
            || occurs_in(lowercase(text@), "mostrar mas"@)
            || occurs_in(lowercase(text@), "ver todos"@)
        ),
{
    proof {
        lemma_load_more_phrases(lowercase(text@));
    }
    let t = chars_of(to_lowercase(text).as_str());
    contains_str(&t, "cargar más") || contains_str(&t, "cargar mas") || contains_str(&t, "ver más")
        || contains_str(&t, "ver mas") || contains_str(&t, "load more") || contains_str(&t, "show more")
        || contains_str(&t, "mostrar más") || contains_str(&t, "mostrar mas") || contains_str(
        &t,
        "ver todos",
    )
}

/// Tracks the "product count stopped increasing" termination rule.
#[derive(Debug)]
pub struct NoGrowthTracker {
    limit: usize,
    best: usize,
    rounds: usize,
}

impl View for NoGrowthTracker {
    /// `(limit, best count, stalled rounds)`.
    type V = (nat, nat, nat);

    closed spec fn view(&self) -> (nat, nat, nat) {
        (self.limit as nat, self.best as nat, self.rounds as nat)
    }
}

/// What recording `count` does to a tracker `(limit, best, stalled
/// rounds)`, and whether scraping goes on: a count above the best becomes
/// the best and clears the stalls; any other count adds a stalled round,
/// and scraping goes on while the stalls stay below the limit.
pub open spec fn after_record(v: (nat, nat, nat), count: nat) -> ((nat, nat, nat), bool) {
    if count > v.1 {
        ((v.0, count, 0), true)
    } else {
        ((v.0, v.1, v.2 + 1), v.2 + 1 < v.0)
    }
}

/// The tracker after recording each of `counts` in turn, and the answer of
/// the last record (`true` when nothing was recorded).
pub open spec fn recorded(v: (nat, nat, nat), counts: Seq<nat>) -> ((nat, nat, nat), bool)
    decreases counts.len(),
{
    if counts.len() == 0 {
        (v, true)
    } else {
        after_record(recorded(v, counts.drop_last()).0, counts.last())
    }
}

proof fn lemma_stalled_rounds(v: (nat, nat, nat), counts: Seq<nat>)
    requires
        forall|i: int| 0 <= i < counts.len() ==> #[trigger] counts[i] <= v.1,
    ensures
        recorded(v, counts).0 == (v.0, v.1, (v.2 + counts.len()) as nat),
        counts.len() > 0 ==> recorded(v, counts).1 == (v.2 + counts.len() < v.0),
    decreases counts.len(),
{
    if counts.len() > 0 {
        let s = counts.drop_last();
        assert forall|i: int| 0 <= i < s.len() implies #[trigger] s[i] <= v.1 by {
            assert(s[i] == counts[i]);
        }
        lemma_stalled_rounds(v, s);
        assert(counts.last() == counts[counts.len() - 1]);
    }
}

/// The no-growth rule: from a tracker with no stalled round, a run of
/// counts none of which exceeds the best keeps scraping going for the first
/// `limit - 1` of them and stops it at the `limit`-th.
pub proof fn lemma_stops_after_limit(v: (nat, nat, nat), counts: Seq<nat>)
    requires
        v.2 == 0,
        forall|i: int| 0 <= i < counts.len() ==> #[trigger] counts[i] <= v.1,
    ensures
        forall|i: int|
            0 <= i < counts.len() ==> (#[trigger] recorded(v, counts.take(i + 1))).1 == (i + 1 < v.0),
{
    assert forall|i: int| 0 <= i < counts.len() implies (#[trigger] recorded(v, counts.take(i + 1))).1 == (i
        + 1 < v.0) by {
        let t = counts.take(i + 1);
        assert forall|j: int| 0 <= j < t.len() implies #[trigger] t[j] <= v.1 by {
            assert(t[j] == counts[j]);
        }
        lemma_stalled_rounds(v, t);
    }
}

impl NoGrowthTracker {
    /// A tracker that lets `limit` (at least 1) consecutive non-growing
    /// rounds pass before declaring the listing exhausted.
    pub fn new(limit: usize) -> (r: Self)
        ensures
            r@ == (if limit > 1 {
                limit as nat
            } else {
                1nat
            }, 0nat, 0nat),
    {
        NoGrowthTracker {
            limit: if limit > 1 {
                limit
            } else {
                1
            },
            best: 0,
            rounds: 0,
        }
    }

    /// Records the latest detected product count. Returns `true` while
    /// scraping should continue: a count above the best so far resets the
    /// stall count; otherwise the stall count grows and scraping continues
    /// while it stays below the limit.
    pub fn record(&mut self, count: usize) -> (r: bool)
        requires
            old(self)@.2 < usize::MAX,
        ensures
            (final(self)@, r) == after_record(old(self)@, count as nat),
    {
        if count > self.best {
            self.best = count;
            self.rounds = 0;
            true
        } else {
            self.rounds = self.rounds + 1;
            self.rounds < self.limit
        }
    }

    /// The number of consecutive non-growing rounds so far.
    pub fn rounds(&self) -> (r: usize)
        ensures
            r == self@.2,
    {
        self.rounds
    }

    /// Restarts the tracker at `count` with no stalled rounds (after a
    /// window reload).
    pub fn restart(&mut self, count: usize)
        ensures
            final(self)@ == (old(self)@.0, count as nat, 0nat),
    {
        self.best = count;
        self.rounds = 0;
    }
}

/// The decoded query pairs of `url` as `url::Url` reads them, or `None`
/// when `url` does not parse.
pub uninterp spec fn url_query(url: Seq<char>) -> Option<Seq<(Seq<char>, Seq<char>)>>;

/// The URL `url::Url` serializes after parsing `base`, clearing its query
/// and appending `pairs` (form-encoded) one by one.
pub uninterp spec fn url_with_query(base: Seq<char>, pairs: Seq<(Seq<char>, Seq<char>)>) -> Seq<char>;

pub open spec fn pairs_view(v: Seq<(String, String)>) -> Seq<(Seq<char>, Seq<char>)> {
    v.map_values(|p: (String, String)| (p.0@, p.1@))
}

/// Trusted: `url::Url::parse`, then `Url::query_pairs` (form-decoded
/// key/value pairs in order). The contract only names the result, a
/// function of `url` alone.
#[verifier::external_body]
fn query_pairs_of(url: &str) -> (r: Option<Vec<(String, String)>>)
    ensures
        match r {
            Some(v) => url_query(url@) == Some(pairs_view(v@)),
            None => url_query(url@).is_none(),
        },
{
    url::Url::parse(url).ok().map(|u| u.query_pairs().map(|(k, v)| (k.into_owned(), v.into_owned())).collect())
}

/// Trusted: `url::Url::parse` of `base`, `query_pairs_mut().clear()`, one
/// `query_pairs_mut().append_pair` per pair, then `Url::to_string`. The
/// contract only names the result, a function of the arguments alone.
#[verifier::external_body]
fn with_query(base: &str, pairs: &Vec<(String, String)>) -> (r: String)
    requires
        url_query(base@) is Some,
    ensures
        r@ == url_with_query(base@, pairs_view(pairs@)),
{
    match url::Url::parse(base) {
        Ok(mut u) => {
            u.query_pairs_mut().clear();
            for (k, v) in pairs {
                u.query_pairs_mut().append_pair(k, v);
            }
            u.to_string()
        },
        Err(_) => String::new(),
    }
}

/// Whether a query pair's key is not `param`.
pub open spec fn other_key(param: Seq<char>) -> spec_fn((Seq<char>, Seq<char>)) -> bool {
    |p: (Seq<char>, Seq<char>)| p.0 != param
}

/// The query pairs of `base` after setting `param` to `page`: the pairs
/// with another key, in order, then `(param, page)`.
pub open spec fn paged_pairs(pairs: Seq<(Seq<char>, Seq<char>)>, param: Seq<char>, page: nat) -> Seq<
    (Seq<char>, Seq<char>),
> {
    pairs.filter(other_key(param)).push((param, decimal(page)))
}

/// The decimal digits of `n` as a string.
fn decimal_string(n: u32) -> (r: String)
    ensures
        r@ == decimal(n as nat),
{
    let mut out: Vec<char> = Vec::new();
    crate::time::push_decimal(&mut out, n as u64);
    assert(out@ =~= decimal(n as nat));
    string_of(&out)
}

/// Setting the page keeps the other query pairs in order and leaves exactly
/// one `param` pair, last, whose value is the page number: an existing value
/// is replaced, never repeated.
pub proof fn lemma_paged_pairs_single(pairs: Seq<(Seq<char>, Seq<char>)>, param: Seq<char>, page: nat)
    ensures
        paged_pairs(pairs, param, page).last() == (param, decimal(page)),
        forall|i: int|
            0 <= i < paged_pairs(pairs, param, page).len() - 1 ==> (#[trigger] paged_pairs(pairs, param, page)[i]).0
                != param,
        paged_pairs(pairs, param, page).drop_last() == pairs.filter(other_key(param)),
{
    let f = other_key(param);
    let kept = pairs.filter(f);
    let r = paged_pairs(pairs, param, page);
    assert(r == kept.push((param, decimal(page))));
    assert(r.drop_last() =~= kept);
    assert forall|i: int| 0 <= i < r.len() - 1 implies (#[trigger] r[i]).0 != param by {
        assert(r[i] == kept[i]);
        assert(kept.contains(kept[i]));
        pairs.lemma_filter_contains_rev(f, kept[i]);
    }
}

/// Sets `param=page` in `base`, preserving the other query pairs in order
/// and replacing any existing `param` (which then comes last).
pub fn set_page_url(base: &str, param: &str, page: u32) -> (r: String)
    requires
        url_query(base@) is Some,
    ensures
        r@ == url_with_query(base@, paged_pairs(url_query(base@).unwrap(), param@, page as nat)),
{
    let pairs = match query_pairs_of(base) {
        Some(p) => p,
        None => Vec::new(),
    };
    let ghost pv = pairs_view(pairs@);
    let ghost p = other_key(param@);
    let key = param.to_string();
    let mut kept: Vec<(String, String)> = Vec::new();
    for k in 0..pairs.len()
        invariant
            pv == pairs_view(pairs@),
            key@ == param@,
            p == other_key(param@),
            pairs_view(kept@) == pv.take(k as int).filter(p),
    {
        proof {
            assert(pv.take(k + 1) =~= pv.take(k as int).push(pv[k as int]));
            crate::text::lemma_filter_push(pv.take(k as int), pv[k as int], p);
        }
        assert(pv[k as int] == (pairs@[k as int].0@, pairs@[k as int].1@));
        if pairs[k].0 != key {
            let ghost o = pairs_view(kept@);
            kept.push((pairs[k].0.clone(), pairs[k].1.clone()));
            assert(pairs_view(kept@) =~= o.push(pv[k as int]));
        }
    }
    assert(pv.take(pairs.len() as int) =~= pv);
    let ghost o = pairs_view(kept@);
    kept.push((key, decimal_string(page)));
    assert(pairs_view(kept@) =~= o.push((param@, decimal(page as nat))));
    with_query(base, &kept)
}

/// [`set_page_url`] for any `base`: `None` when `base` does not parse as a
/// URL.
pub fn try_set_page_url(base: &str, param: &str, page: u32) -> (r: Option<String>)
    ensures
        match r {
            Some(u) => url_query(base@) is Some && u@ == url_with_query(
                base@,
                paged_pairs(url_query(base@).unwrap(), param@, page as nat),
            ),
            None => url_query(base@).is_none(),
        },
{
    match query_pairs_of(base) {
        Some(_) => Some(set_page_url(base, param, page)),
        None => None,
    }
}

/// Whether `url`'s query holds the key `param`.
pub open spec fn has_query_key(url: Seq<char>, param: Seq<char>) -> bool {
    &&& url_query(url) is Some
    &&& exists|k: int|
        0 <= k < url_query(url).unwrap().len() && (#[trigger] url_query(url).unwrap()[k]).0 == param
}

/// Whether `url`'s query string contains `param`.
pub fn url_contains_page_param(url: &str, param: &str) -> (r: bool)
    ensures
        r == has_query_key(url@, param@),
{
    let pairs = match query_pairs_of(url) {
        Some(p) => p,
        None => {
            return false;
        },
    };
    let ghost pv = pairs_view(pairs@);
    let key = param.to_string();
    for k in 0..pairs.len()
        invariant
            pv == pairs_view(pairs@),
            url_query(url@) == Some(pv),
            pv.len() == pairs@.len(),
            key@ == param@,
            forall|j: int| 0 <= j < k ==> (#[trigger] pv[j]).0 != param@,
    {
        assert(pv[k as int] == (pairs@[k as int].0@, pairs@[k as int].1@));
        if pairs[k].0 == key {
            assert(pv[k as int].0 == param@);
            assert(url_query(url@).unwrap()[k as int].0 == param@);
            return true;
        }
    }
    false
}

/// The page number of the last pair among `ps[..k]` with key `param` whose
/// value reads as a `u32`.
pub open spec fn last_page_upto(ps: Seq<(Seq<char>, Seq<char>)>, param: Seq<char>, k: int) -> Option<nat>
    decreases k,
{
    if k <= 0 || k > ps.len() {
        None
    } else if ps[k - 1].0 == param && parse_unsigned(ps[k - 1].1, u32::MAX as nat) is Some {
        parse_unsigned(ps[k - 1].1, u32::MAX as nat)
    } else {
        last_page_upto(ps, param, k - 1)
    }
}

/// The page number `url` carries in `param`: the last such pair whose
/// value reads as a `u32`.
pub open spec fn page_of(url: Seq<char>, param: Seq<char>) -> Option<nat> {
    match url_query(url) {
        Some(ps) => last_page_upto(ps, param, ps.len() as int),
        None => None,
    }
}

/// The last value of `param` in `url`'s query string, parsed as `u32`.
pub fn extract_page(url: &str, param: &str) -> (r: Option<u32>)
    ensures
        match r {
            Some(n) => page_of(url@, param@) == Some(n as nat),
            None => page_of(url@, param@).is_none(),
        },
{
    let pairs = match query_pairs_of(url) {
        Some(p) => p,
        None => {
            return None;
        },
    };
    let ghost pv = pairs_view(pairs@);
    let key = param.to_string();
    let mut last: Option<u32> = None;
    for k in 0..pairs.len()
        invariant
            pv == pairs_view(pairs@),
            url_query(url@) == Some(pv),
            key@ == param@,
            match last {
                Some(n) => last_page_upto(pv, param@, k as int) == Some(n as nat),
                None => last_page_upto(pv, param@, k as int).is_none(),
            },
    {
        assert(pv[k as int] == (pairs@[k as int].0@, pairs@[k as int].1@));
        if pairs[k].0 == key {
            match parse_u32(pairs[k].1.as_str()) {
                Some(n) => {
                    last = Some(n);
                },
                None => {},
            }
        }
    }
    last
}

/// The window-reload state of a `?page=N` listing: the page parameter, the
/// threshold (0 disables windowing) and the pages already reloaded.
pub struct WindowState {
    param: String,
    threshold: usize,
    reloaded: Vec<u32>,
}

impl View for WindowState {
    /// `(param, threshold, reloaded pages)`.
    type V = (Seq<char>, nat, Set<nat>);

    closed spec fn view(&self) -> (Seq<char>, nat, Set<nat>) {
        (self.param@, self.threshold as nat, self.reloaded@.map_values(|p: u32| p as nat).to_set())
    }
}

/// The page number of `url` for windowing: its `param` value, 1 when it
/// has none.
pub open spec fn reload_page(url: Seq<char>, param: Seq<char>) -> nat {
    match page_of(url, param) {
        Some(n) => n,
        None => 1,
    }
}

/// Whether a window `(param, threshold, reloaded pages)` reloads `url`
/// showing `total` products: windowing is on, the URL carries the
/// parameter, the count has reached the threshold and the page was not
/// reloaded yet.
pub open spec fn reload_due(v: (Seq<char>, nat, Set<nat>), url: Seq<char>, total: nat) -> bool {
    v.1 != 0 && has_query_key(url, v.0) && total >= v.1 && !v.2.contains(reload_page(url, v.0))
}

/// A page is reloaded at most once: after a reload of `url`, the same URL
/// is not due again, whatever its product count.
pub proof fn lemma_page_reloaded_once(v: (Seq<char>, nat, Set<nat>), url: Seq<char>, total: nat, later: nat)
    requires
        reload_due(v, url, total),
    ensures
        !reload_due((v.0, v.1, v.2.insert(reload_page(url, v.0))), url, later),
{
}

impl WindowState {
    /// Windowing for `param` at `threshold`, with no page reloaded yet.
    pub fn new(param: String, threshold: usize) -> (r: Self)
        ensures
            r@ == (param@, threshold as nat, Set::<nat>::empty()),
    {
        let r = WindowState { param, threshold, reloaded: Vec::new() };
        assert(r.reloaded@.map_values(|p: u32| p as nat).to_set() =~= Set::<nat>::empty());
        r
    }

    /// Whether the product count of `current_url` matters: windowing is on
    /// and the URL carries the page parameter.
    pub fn watches(&self, current_url: &str) -> (r: bool)
        ensures
            r == (self@.1 != 0 && has_query_key(current_url@, self@.0)),
    {
        self.threshold != 0 && url_contains_page_param(current_url, self.param.as_str())
    }

    /// Decides whether to reload `current_url`, whose page shows `total`
    /// products: when the page is watched, the count has reached the
    /// threshold and this page (its number, 1 when it has none) was not
    /// reloaded yet, the page is marked reloaded and the URL to navigate to
    /// is returned (the same page, its parameter moved last).
    #[verifier::loop_isolation(false)]
    pub fn reload_target(&mut self, current_url: &str, total: usize) -> (r: Option<String>)
        ensures
            ({
                let page = reload_page(current_url@, old(self)@.0);
                &&& reload_due(old(self)@, current_url@, total as nat) ==> r is Some && final(self)@ == (
                    old(self)@.0,
                    old(self)@.1,
                    old(self)@.2.insert(page),
                ) && r.unwrap()@ == url_with_query(
                    current_url@,
                    paged_pairs(url_query(current_url@).unwrap(), old(self)@.0, page),
                )
                &&& !reload_due(old(self)@, current_url@, total as nat) ==> r is None && final(self)@ == old(
                    self,
                )@
            }),
    {
        if !self.watches(current_url) {
            return None;
        }
        if !should_window_reload(total, self.threshold, true) {
            return None;
        }
        let page = match extract_page(current_url, self.param.as_str()) {
            Some(n) => n,
            None => 1,
        };
        let ghost rv = self.reloaded@.map_values(|p: u32| p as nat);
        for k in 0..self.reloaded.len()
            invariant
                rv == self.reloaded@.map_values(|p: u32| p as nat),
                forall|j: int| 0 <= j < k ==> rv[j] != page as nat,
        {
            if self.reloaded[k] == page {
                assert(rv[k as int] == page as nat);
                assert(rv.to_set().contains(page as nat));
                return None;
            }
        }
        assert(!rv.to_set().contains(page as nat)) by {
            if rv.to_set().contains(page as nat) {
                assert(rv.contains(page as nat));
            }
        }
        self.reloaded.push(page);
        assert(self.reloaded@.map_values(|p: u32| p as nat) =~= rv.push(page as nat));
        assert(rv.push(page as nat).to_set() =~= rv.to_set().insert(page as nat)) by {
            assert forall|x: nat| rv.push(page as nat).to_set().contains(x) <==> rv.to_set().insert(
                page as nat,
            ).contains(x) by {
                if rv.push(page as nat).contains(x) && x != page as nat {
                    let j = choose|j: int| 0 <= j < rv.len() + 1 && rv.push(page as nat)[j] == x;
                    assert(rv[j] == x);
                }
                if rv.contains(x) {
                    let j = choose|j: int| 0 <= j < rv.len() && rv[j] == x;
                    assert(rv.push(page as nat)[j] == x);
                }
                if x == page as nat {
                    assert(rv.push(page as nat)[rv.len() as int] == x);
                }
            }
        }
        Some(set_page_url(current_url, self.param.as_str(), page))
    }
}

/// The product count of an optional detection (0 for none).
pub open spec fn count_of(best: Option<Detection>) -> nat {
    match best {
        Some(d) => d.products@.len(),
        None => 0,
    }
}

/// The state of a scrape in progress: the largest grid seen and the
/// no-growth tracker.
pub struct ScrapeState {
    /// The largest detection so far (the one of the current window after a
    /// window reload).
    pub best: Option<Detection>,
    /// The no-growth tracker.
    pub tracker: NoGrowthTracker,
}

impl ScrapeState {
    /// A new scrape: no grid yet, stalls limited to [`NO_GROWTH_LIMIT`].
    pub fn new() -> (r: Self)
        ensures
            r.best.is_none(),
            r.tracker@ == (NO_GROWTH_LIMIT as nat, 0nat, 0nat),
    {
        ScrapeState { best: None, tracker: NoGrowthTracker::new(NO_GROWTH_LIMIT) }
    }

    /// Takes in the detection of the current page (`None` when the page has
    /// no grid) and whether a window reload just happened. Returns the
    /// current best product count and whether the best grid changed (so it
    /// is to be persisted): after a window reload the page's grid (or none)
    /// replaces the best and the tracker restarts at its count; otherwise a
    /// grid with more products than the best replaces it.
    pub fn observe(&mut self, detection: Option<Detection>, window_reloaded: bool) -> (r: (usize, bool))
        ensures
            final(self).tracker@.0 == old(self).tracker@.0,
            window_reloaded ==> final(self).tracker@ == (old(self).tracker@.0, count_of(detection), 0nat)
                && detection_view(final(self).best) == detection_view(detection) && r.0 == count_of(
                detection,
            ) && r.1 == detection is Some,
            !window_reloaded ==> final(self).tracker@ == old(self).tracker@,
            !window_reloaded && detection is Some && (old(self).best is None || count_of(detection)
                > count_of(old(self).best)) ==> detection_view(final(self).best) == detection_view(
                detection,
            ) && r.0 == count_of(detection) && r.1,
            !window_reloaded && !(detection is Some && (old(self).best is None || count_of(detection)
                > count_of(old(self).best))) ==> detection_view(final(self).best) == detection_view(
                old(self).best,
            ) && r.0 == count_of(old(self).best) && !r.1,
    {
        match detection {
            None => {
                if window_reloaded {
                    self.best = None;
                    self.tracker.restart(0);
                    (0, false)
                } else {
                    (self.current_count(), false)
                }
            },
            Some(d) => {
                let count = d.products.len();
                if window_reloaded {
                    self.best = Some(d);
                    self.tracker.restart(count);
                    return (count, true);
                }
                let grows = match &self.best {
                    None => true,
                    Some(b) => count > b.products.len(),
                };
                if grows {
                    self.best = Some(d);
                    (count, true)
                } else {
                    (self.current_count(), false)
                }
            },
        }
    }

    /// The product count of the best detection (0 when none).
    pub fn current_count(&self) -> (r: usize)
        ensures
            r == count_of(self.best),
    {
        match &self.best {
            Some(b) => b.products.len(),
            None => 0,
        }
    }
}

} // verus!
