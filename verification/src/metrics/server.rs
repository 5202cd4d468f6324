//! What the log reporter and the Prometheus endpoint answer.

use crate::metrics;
use crate::metrics::{Metrics, Rates, Snapshot};
use crate::text;
use vstd::prelude::*;

verus! {

/// Turns one snapshot per interval into rates, each relative to the snapshot
/// before it.
///
/// This is the fallback for anyone without a Prometheus scraper: throughput,
/// drops and rebalances stay observable with nothing but `RUST_LOG=info`.
pub struct Reporter {
    previous: Snapshot,
}

impl Reporter {
    /// The snapshot that the next rates are relative to.
    pub closed spec fn baseline(self) -> Snapshot {
        self.previous
    }

    /// Starts from `first`. An interval of zero seconds disables the reporter.
    pub fn start(first: Snapshot, interval_seconds: u64) -> (reporter: Option<Self>)
        ensures
            match reporter {
                Some(reporter) => interval_seconds > 0 && reporter.baseline() == first,
                None => interval_seconds == 0,
            },
    {
        if interval_seconds == 0 {
            None
        } else {
            Some(Reporter { previous: first })
        }
    }

    /// The rates of the interval that ends with `current`, which is what the
    /// next interval starts from.
    pub fn tick(&mut self, current: Snapshot) -> (rates: Rates)
        ensures
            metrics::rates_between(current, old(self).baseline(), rates),
            final(self).baseline() == current,
    {
        let rates = current.rates_since(&self.previous);
        self.previous = current;
        rates
    }
}

/// The HTTP response to one request.
#[derive(Debug)]
pub struct Reply {
    pub status: u16,
    pub content_type: Option<&'static str>,
    pub body: String,
}

/// Whether a request asks for the exposition.
pub open spec fn asks_for_metrics(method: Seq<char>, path: Seq<char>) -> bool {
    method == "GET"@ && path == "/metrics"@
}

/// Answers one request.
///
/// Every path but `/metrics` is a 404: this listener exists to be scraped and
/// has no other job.
pub fn route(metrics: &Metrics, method: &str, path: &str) -> (reply: Reply)
    ensures
        asks_for_metrics(method@, path@) ==> {
            &&& reply.status == 200
            &&& reply.content_type matches Some(kind) && kind@
                == "text/plain; version=0.0.4; charset=utf-8"@
            &&& reply.body@ == metrics.exposition()
        },
        !asks_for_metrics(method@, path@) ==> {
            &&& reply.status == 404
            &&& reply.content_type is None
            &&& reply.body@ == "try /metrics\n"@
        },
        reply.status == 200 <==> method@ == "GET"@ && path@ == "/metrics"@,
        reply.status == 200 || reply.status == 404,
        reply.status == 200 ==> reply.body@ == metrics.exposition(),
{
    if text::same_text(method, "GET") && text::same_text(path, "/metrics") {
        Reply {
            status: 200,
            content_type: Some("text/plain; version=0.0.4; charset=utf-8"),
            body: metrics.render_prometheus(),
        }
    } else {
        Reply { status: 404, content_type: None, body: "try /metrics\n".to_owned() }
    }
}

/// The exposition is served to a `GET` of `/metrics`, and to no other request.
pub proof fn only_a_scrape_is_served(method: Seq<char>, path: Seq<char>)
    ensures
        asks_for_metrics("GET"@, "/metrics"@),
        method != "GET"@ || path != "/metrics"@ ==> !asks_for_metrics(method, path),
{
}

} // verus!
