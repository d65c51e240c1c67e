//! One poll cycle's decisions: which snapshot the feed gives, whether to
//! store it and notify, and the message that announces the newest event.
use vstd::prelude::*;
use vstd::string::*;
use crate::chunks::views;
use crate::markup::{process_body, transcoded};
use crate::snapshot::same_snapshot;

verus! {

/// The announcement that a feed event carries.
pub struct AnnouncementBody {
    /// The body in bracket markup, where the event has one as text.
    pub body: Option<String>,
    pub headline: String,
}

/// One entry of the feed.
pub struct Event {
    pub announcement_body: AnnouncementBody,
}

/// The headline of an event.
pub open spec fn headline_of(e: Event) -> Seq<char> {
    e.announcement_body.headline@
}

/// What a poll cycle does once it has the feed's snapshot.
#[derive(PartialEq, Eq, Structural, Debug, Clone, Copy)]
pub enum CyclePlan {
    /// No snapshot was stored: store this one as the baseline, announce nothing.
    Baseline,
    /// The feed is as stored: nothing to do.
    Unchanged,
    /// The feed changed: store the new snapshot and announce the newest event.
    Changed,
}

impl CyclePlan {
    /// Whether the cycle stores the new snapshot.
    pub fn stores(&self) -> (r: bool)
        ensures
            r == (*self != CyclePlan::Unchanged),
    {
        !matches!(self, CyclePlan::Unchanged)
    }

    /// Whether the cycle announces the newest event.
    pub fn notifies(&self) -> (r: bool)
        ensures
            r == (*self == CyclePlan::Changed),
    {
        matches!(self, CyclePlan::Changed)
    }
}

/// The snapshot of a feed: the headlines of its events, in order.
pub fn headlines(events: &Vec<Event>) -> (r: Vec<String>)
    ensures
        views(r@) == events@.map_values(|e: Event| headline_of(e)),
{
    let mut r: Vec<String> = Vec::new();
    let mut i: usize = 0;
    while i < events.len()
        invariant
            i <= events@.len(),
            views(r@) == events@.map_values(|e: Event| headline_of(e)).subrange(0, i as int),
        decreases events@.len() - i,
    {
        let ghost before = views(r@);
        let h = events[i].announcement_body.headline.clone();
        assert(h@ == headline_of(events@[i as int]));
        r.push(h);
        assert(views(r@) =~= before.push(h@));
        i += 1;
        assert(views(r@) =~= events@.map_values(|e: Event| headline_of(e)).subrange(0, i as int));
    }
    assert(events@.map_values(|e: Event| headline_of(e)).subrange(0, i as int)
        =~= events@.map_values(|e: Event| headline_of(e)));
    r
}

/// The plan of a cycle, from the stored snapshot (if any) and the current one.
pub open spec fn plan_of(previous: Option<Seq<Seq<char>>>, current: Seq<Seq<char>>) -> CyclePlan {
    match previous {
        None => CyclePlan::Baseline,
        Some(p) => if p == current { CyclePlan::Unchanged } else { CyclePlan::Changed },
    }
}

/// Decides what a cycle does: set a baseline when nothing was stored, nothing
/// when the feed is as stored, and store and announce when it changed.
pub fn plan_cycle(previous: Option<&Vec<String>>, current: &Vec<String>) -> (r: CyclePlan)
    ensures
        r == plan_of(
            match previous {
                Some(p) => Some(views(p@)),
                None => None,
            },
            views(current@),
        ),
{
    match previous {
        None => CyclePlan::Baseline,
        Some(p) => if same_snapshot(p, current) { CyclePlan::Unchanged } else { CyclePlan::Changed },
    }
}

/// The line that opens every announcement.
pub open spec fn preamble() -> Seq<char> {
    "_*To see more updates and news follow this [link](https://www.dota2.com/news?l=english)*_\n\n"@
}

/// The announcement of the newest event: the preamble, the headline in bold
/// and the transcoded body; empty when the feed has no event or the newest
/// one has no body.
pub open spec fn message_of(events: Seq<Event>) -> Seq<char> {
    if events.len() > 0 && events[0].announcement_body.body is Some {
        preamble() + "*"@ + headline_of(events[0]) + "*\n"@
            + transcoded(events[0].announcement_body.body->Some_0@) + "\n\n"@
    } else {
        Seq::empty()
    }
}

/// Composes the announcement of the newest event.
pub fn compose_message(events: &Vec<Event>) -> (r: String)
    ensures
        r@ == message_of(events@),
{
    if events.len() == 0 {
        return String::new();
    }
    let first = &events[0];
    match &first.announcement_body.body {
        None => String::new(),
        Some(body) => {
            let text = process_body(body.as_str());
            let mut m = "_*To see more updates and news follow this [link](https://www.dota2.com/news?l=english)*_\n\n".to_owned();
            m.append("*");
            m.append(first.announcement_body.headline.as_str());
            m.append("*\n");
            m.append(text.as_str());
            m.append("\n\n");
            m
        },
    }
}

} // verus!
