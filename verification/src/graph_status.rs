//! Whether a workspace's knowledge graph is built, and whether a scan of it is running.

use vstd::prelude::*;

verus! {

/// Build status of a workspace's knowledge graph: a signal for the interface, not a gate. Every
/// query tolerates a graph that is not built yet.
#[derive(Debug, Clone, Copy, PartialEq, Eq, Structural)]
pub enum GraphBuildStatus {
    /// The scan hasn't finished yet: every graph query comes back empty.
    Building,
    /// The scan completed and the graph is populated.
    Ready,
    /// The scan task itself failed: the graph stays empty for the rest of the session.
    Failed,
}

impl Default for GraphBuildStatus {
    fn default() -> (status: GraphBuildStatus)
        ensures
            status == GraphBuildStatus::Building,
    {
        GraphBuildStatus::Building
    }
}

/// How many workspace scans are running right now.
///
/// It answers the one question [`GraphBuildStatus`] cannot: `Building` reads the same whether a
/// scan is under way or none was ever started.
#[derive(Debug)]
pub struct ScanActivity {
    pub running: usize,
}

/// Stands for one running scan, from [`ScanActivity::begin`] to [`ScanActivity::end`].
#[derive(Debug)]
pub struct ScanGuard {
    marker: (),
}

/// The count after one more scan has begun.
pub open spec fn raised(running: usize) -> usize {
    if running == usize::MAX { 0 } else { (running + 1) as usize }
}

/// The count after one scan has ended.
pub open spec fn lowered(running: usize) -> usize {
    if running == 0 { usize::MAX } else { (running - 1) as usize }
}

impl Default for ScanActivity {
    fn default() -> (activity: ScanActivity)
        ensures
            activity.running == 0,
    {
        ScanActivity { running: 0 }
    }
}

impl ScanActivity {
    /// Registers a scan as running until its guard is handed back.
    pub fn begin(&mut self) -> (guard: ScanGuard)
        ensures
            final(self).running == raised(old(self).running),
    {
        self.running = self.running.wrapping_add(1);
        ScanGuard { marker: () }
    }

    /// Ends the scan a guard stands for.
    pub fn end(&mut self, guard: ScanGuard)
        ensures
            final(self).running == lowered(old(self).running),
    {
        let ScanGuard { marker: _ } = guard;
        self.running = self.running.wrapping_sub(1);
    }

    /// Whether at least one scan is running.
    pub fn is_scanning(&self) -> (yes: bool)
        ensures
            yes == (self.running > 0),
    {
        self.running > 0
    }
}

/// A scan that ends releases its waiters: the count is what it was before the scan began, however
/// many others are running.
pub proof fn law_a_finished_scan_leaves_no_trace(running: usize)
    ensures
        lowered(raised(running)) == running,
{
}

/// What can happen to the count: a scan begins, or a guard that was handed out comes back.
pub enum Change {
    Begun,
    Ended,
}

/// How many of the scans begun have not ended.
pub open spec fn open_scans(changes: Seq<Change>) -> int
    decreases changes.len(),
{
    if changes.len() == 0 {
        0
    } else {
        match changes.last() {
            Change::Begun => open_scans(changes.drop_last()) + 1,
            Change::Ended => open_scans(changes.drop_last()) - 1,
        }
    }
}

/// The count a [`ScanActivity`] that started out fresh has after these changes.
pub open spec fn count_after(changes: Seq<Change>) -> usize
    decreases changes.len(),
{
    if changes.len() == 0 {
        0
    } else {
        match changes.last() {
            Change::Begun => raised(count_after(changes.drop_last())),
            Change::Ended => lowered(count_after(changes.drop_last())),
        }
    }
}

/// Whatever begins and ends in whatever order, the flag says whether a scan is still open. No
/// scan ends that was not begun, and no more are ever open than can be counted.
pub proof fn law_the_flag_says_whether_a_scan_is_open(changes: Seq<Change>)
    requires
        forall|n: int|
            0 <= n <= changes.len() ==> 0 <= #[trigger] open_scans(changes.take(n)) <= usize::MAX,
    ensures
        count_after(changes) == open_scans(changes),
        (count_after(changes) > 0) == (open_scans(changes) > 0),
    decreases changes.len(),
{
    assert(changes.take(changes.len() as int) =~= changes);
    if changes.len() > 0 {
        let rest = changes.drop_last();
        assert forall|n: int| 0 <= n <= rest.len() implies 0 <= #[trigger] open_scans(rest.take(n))
            <= usize::MAX by {
            assert(rest.take(n) =~= changes.take(n));
        }
        law_the_flag_says_whether_a_scan_is_open(rest);
        assert(rest.take(rest.len() as int) =~= rest);
    }
}

} // verus!
