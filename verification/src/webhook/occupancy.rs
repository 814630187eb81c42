//! Who is in a channel when a delayed webhook is about to fire.
use crate::text;
use crate::transport::worker::index::has_name;
use crate::transport::worker::mail::names;
use vstd::prelude::*;

verus! {

/// A source of a channel's subscription count and of its members.
pub trait OccupancySource {
    spec fn count_of(&self, app: Seq<char>, channel: Seq<char>) -> nat;

    spec fn present(&self, app: Seq<char>, channel: Seq<char>, user: Seq<char>) -> bool;

    /// How many subscriptions the channel has.
    fn subscription_count(&self, app: &str, channel: &str) -> (r: usize)
        ensures
            r == self.count_of(app@, channel@),
    ;

    /// Whether the user is a member of the channel.
    fn is_member_present(&self, app: &str, channel: &str, user_id: &str) -> (r: bool)
        ensures
            r == self.present(app@, channel@, user_id@),
    ;
}

/// What the cluster reports about one channel.
#[derive(Debug)]
pub struct ChannelReport {
    pub app: String,
    pub channel: String,
    pub subscription_count: usize,
    /// The user ids of the channel's members.
    pub members: Vec<String>,
}

/// An occupancy source over the cluster's reports. A channel that is not
/// reported is empty; of several reports on one channel the first counts.
#[derive(Debug)]
pub struct AdapterOccupancy(pub Vec<ChannelReport>);

/// The first report on a channel, at or after a position.
pub open spec fn report_from(
    reports: Seq<ChannelReport>,
    app: Seq<char>,
    channel: Seq<char>,
    i: int,
) -> Option<ChannelReport>
    decreases reports.len() - i,
{
    if i < 0 || i >= reports.len() {
        None
    } else if reports[i].app@ == app && reports[i].channel@ == channel {
        Some(reports[i])
    } else {
        report_from(reports, app, channel, i + 1)
    }
}

impl AdapterOccupancy {
    /// The report on a channel.
    pub open spec fn report_of(&self, app: Seq<char>, channel: Seq<char>) -> Option<ChannelReport> {
        report_from(self.0@, app, channel, 0)
    }

    fn report(&self, app: &str, channel: &str) -> (r: Option<&ChannelReport>)
        ensures
            match r {
                Some(x) => self.report_of(app@, channel@) == Some(*x),
                None => self.report_of(app@, channel@) is None,
            },
    {
        let mut i: usize = 0;
        while i < self.0.len()
            invariant
                i <= self.0@.len(),
                self.report_of(app@, channel@) == report_from(self.0@, app@, channel@, i as int),
            decreases self.0@.len() - i,
        {
            if text::str_eq(self.0[i].app.as_str(), app) && text::str_eq(
                self.0[i].channel.as_str(),
                channel,
            ) {
                return Some(&self.0[i]);
            }
            i = i + 1;
        }
        None
    }
}

impl OccupancySource for AdapterOccupancy {
    open spec fn count_of(&self, app: Seq<char>, channel: Seq<char>) -> nat {
        match self.report_of(app, channel) {
            Some(r) => r.subscription_count as nat,
            None => 0,
        }
    }

    open spec fn present(&self, app: Seq<char>, channel: Seq<char>, user: Seq<char>) -> bool {
        match self.report_of(app, channel) {
            Some(r) => names(r.members@).contains(user),
            None => false,
        }
    }

    fn subscription_count(&self, app: &str, channel: &str) -> (r: usize) {
        match self.report(app, channel) {
            Some(report) => report.subscription_count,
            None => 0,
        }
    }

    fn is_member_present(&self, app: &str, channel: &str, user_id: &str) -> (r: bool) {
        match self.report(app, channel) {
            Some(report) => has_name(&report.members, user_id),
            None => false,
        }
    }
}

/// The first report on a channel is what counts for it, and a channel without a
/// report is empty.
pub proof fn the_first_report_counts(
    source: AdapterOccupancy,
    app: Seq<char>,
    channel: Seq<char>,
    user: Seq<char>,
    i: int,
)
    requires
        0 <= i <= source.0@.len(),
        forall|j: int|
            0 <= j < i ==> (#[trigger] source.0@[j]).app@ != app || source.0@[j].channel@ != channel,
        i < source.0@.len() ==> source.0@[i].app@ == app && source.0@[i].channel@ == channel,
    ensures
        i < source.0@.len() ==> source.count_of(app, channel) == source.0@[i].subscription_count,
        i < source.0@.len() ==> (source.present(app, channel, user) <==> names(
            source.0@[i].members@,
        ).contains(user)),
        i == source.0@.len() ==> source.count_of(app, channel) == 0 && !source.present(
            app,
            channel,
            user,
        ),
{
    lemma_report_from(source.0@, app, channel, i, i);
}

proof fn lemma_report_from(
    reports: Seq<ChannelReport>,
    app: Seq<char>,
    channel: Seq<char>,
    i: int,
    left: int,
)
    requires
        0 <= left <= i <= reports.len(),
        forall|j: int|
            0 <= j < i ==> (#[trigger] reports[j]).app@ != app || reports[j].channel@ != channel,
        i < reports.len() ==> reports[i].app@ == app && reports[i].channel@ == channel,
    ensures
        report_from(reports, app, channel, i - left) == (if i < reports.len() {
            Some(reports[i])
        } else {
            None
        }),
    decreases left,
{
    if left > 0 {
        lemma_report_from(reports, app, channel, i, left - 1);
        assert(reports[i - left].app@ != app || reports[i - left].channel@ != channel);
    }
}

} // verus!
