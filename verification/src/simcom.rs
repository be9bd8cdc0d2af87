//! Finding the serial ports of a SIMCom modem.

use vstd::prelude::*;
use vstd::string::*;
use crate::aggregate::{numbers_of, summarises, summarize, Radix, Summary};
use crate::matcher::{criteria_of, matched_values};
use crate::pathfinder::DirEntry;
use crate::sysfssearch::{
    chain_of, depth_of, Action, ActionView, Progress, SearchView, SysfsSearch,
};
use crate::usbdev::{MODEL_ID, TTY_NUM, VENDOR_ID};
use crate::utils::CommandResult;

verus! {

/// The vendor identifier of SIMCom devices.
pub const SIMCOM_VID: &'static str = "1e0e";

/// The model identifier of the SIM7600.
pub const SIM7600_MID: &'static str = "9001";

/// The name by which the SIM7600 is asked for.
pub const SIM7600: &'static str = "SIM7600";

/// The criteria that single out the blocks of a SIM7600.
pub open spec fn sim7600_criteria() -> Seq<(Seq<char>, Seq<char>)> {
    seq![(VENDOR_ID@, SIMCOM_VID@), (MODEL_ID@, SIM7600_MID@)]
}

/// The port numbers that the blocks of a SIM7600 hold among `blocks`.
pub open spec fn sim7600_ports(blocks: Seq<Seq<char>>) -> Seq<nat> {
    numbers_of(matched_values(blocks, TTY_NUM@, sim7600_criteria()), Radix::Decimal)
}

/// A search for a SIMCom modem.
pub struct SimCom {
    sysfsobj: SysfsSearch,
}

impl View for SimCom {
    type V = SearchView;

    closed spec fn view(&self) -> SearchView {
        self.sysfsobj@
    }
}

impl SimCom {
    /// A search below `path` with the given filter chain and depth limit.
    pub fn new(path: &str, filter: Option<Vec<&str>>, search_limit: Option<u32>) -> (r: SimCom)
        ensures
            r@ == SearchView::fresh(path@, chain_of(filter.deep_view()), depth_of(search_limit)),
            r@.wf(),
    {
        SimCom { sysfsobj: SysfsSearch::new(path, filter, search_limit) }
    }

    /// Begins or takes up the search; see [`SysfsSearch::search`].
    pub fn search(&mut self) -> (r: Action)
        ensures
            final(self)@ == old(self)@.begun(),
            r@ == final(self)@.action(),
            final(self)@.wf(),
            old(self)@.progress == Some(Progress::Populated) ==> final(self)@ == old(self)@ && r@
                == ActionView::Done(old(self)@.buffer.len()),
    {
        self.sysfsobj.search()
    }

    /// Takes in a directory listing; see [`SysfsSearch::listed`].
    pub fn listed(&mut self, listing: Option<Vec<DirEntry>>) -> (r: Action)
        ensures
            final(self)@ == old(self)@.listed(listing.deep_view()).begun(),
            r@ == final(self)@.action(),
            final(self)@.wf(),
    {
        self.sysfsobj.listed(listing)
    }

    /// Takes in a report of the property source; see
    /// [`SysfsSearch::answered`].
    pub fn answered(&mut self, result: CommandResult) -> (r: Action)
        ensures
            final(self)@ == old(self)@.answered(result@).begun(),
            r@ == final(self)@.action(),
            final(self)@.wf(),
    {
        self.sysfsobj.answered(result)
    }

    /// The values of `key` in the stored blocks that meet the criteria;
    /// see [`SysfsSearch::get_property`]. The search is left as it is.
    pub fn get_property(&mut self, key: &str, criteria: Option<&Vec<(&str, &str)>>) -> (r: Option<
        Vec<String>,
    >)
        ensures
            final(self)@ == old(self)@,
            match r {
                Some(values) => values.len() > 0 && values.deep_view() == matched_values(
                    old(self)@.buffer,
                    key@,
                    criteria_of(criteria),
                ),
                None => matched_values(old(self)@.buffer, key@, criteria_of(criteria)).len() == 0,
            },
    {
        self.sysfsobj.get_property(key, criteria)
    }

    /// The serial ports of the SIM7600 among the stored blocks: the least
    /// port number and how many ports there are. Absent where the search
    /// has stored no block of a SIM7600 with a port number, which differs
    /// from a modem whose first port is number zero.
    pub fn find_simcom_dev(&self) -> (r: Option<Summary>)
        ensures
            match r {
                Some(summary) => summarises(summary, sim7600_ports(self@.buffer)),
                None => sim7600_ports(self@.buffer).len() == 0,
            },
    {
        let criteria: Vec<(&str, &str)> = vec![(VENDOR_ID, SIMCOM_VID), (MODEL_ID, SIM7600_MID)];
        assert(criteria.deep_view() =~= sim7600_criteria());
        match self.sysfsobj.get_property(TTY_NUM, Some(&criteria)) {
            Some(values) => summarize(&values, Radix::Decimal),
            None => {
                assert(numbers_of(Seq::empty(), Radix::Decimal) =~= Seq::empty());
                assert(matched_values(self@.buffer, TTY_NUM@, sim7600_criteria()) =~= Seq::empty());
                None
            },
        }
    }
}

} // verus!
