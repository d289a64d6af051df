//! The state behind the commands: which process is attached, the results of
//! the current scan session, and the answers the commands give.

use vstd::prelude::*;
use crate::format::{decimal, push_decimal, push_str};
use crate::text::string_from_chars;
use crate::types::{found_views, FoundAddress, FoundAddressView, ScanState, ScanValue, ValueType};

verus! {

/// The pause between two rounds of the value freezer started on attach, in
/// milliseconds: twenty writes a second.
pub const FREEZE_INTERVAL_MS: u64 = 50;

/// What a scan command reports: how many addresses were found, and which
/// scan of the session this was.
#[derive(Debug, Clone, Copy, PartialEq, Eq, Structural)]
pub struct ScanSummary {
    pub found: usize,
    pub scan_number: u32,
}

/// The process that commands act on.
#[derive(Debug, Clone)]
pub struct AttachedProcess {
    pub pid: u32,
    pub name: String,
}

/// The state shared by the commands. A value freezer runs exactly while a
/// process is attached.
pub struct Session {
    pub process: Option<AttachedProcess>,
    pub scan_state: Option<ScanState>,
}

/// The message that confirms an attach.
pub open spec fn attached_text(pid: u32, name: Seq<char>) -> Seq<char> {
    "Attached to "@ + name + " (PID "@ + decimal(pid as nat) + ")"@
}

/// The message of a failed attach to `pid` for `reason`.
pub open spec fn attach_failed_text(pid: u32, reason: Seq<char>) -> Seq<char> {
    "OpenProcess failed (pid "@ + decimal(pid as nat) + "): "@ + reason + ". Run as Administrator?"@
}

/// The page of `results` that starts at `offset` and holds at most `limit`
/// entries.
pub open spec fn page(results: Seq<FoundAddressView>, offset: nat, limit: nat) -> Seq<FoundAddressView> {
    if offset >= results.len() {
        seq![]
    } else if offset + limit < results.len() {
        results.subrange(offset as int, (offset + limit) as int)
    } else {
        results.subrange(offset as int, results.len() as int)
    }
}

/// The message of a failed attach to `pid` for `reason`.
pub fn attach_failed_message(pid: u32, reason: &str) -> (r: String)
    ensures
        r@ == attach_failed_text(pid, reason@),
{
    let mut out: Vec<char> = Vec::new();
    push_str(&mut out, "OpenProcess failed (pid ");
    push_decimal(&mut out, pid as u64);
    push_str(&mut out, "): ");
    push_str(&mut out, reason);
    push_str(&mut out, ". Run as Administrator?");
    string_from_chars(out.as_slice())
}

impl Session {
    /// A session with no process attached and no scan.
    pub fn new() -> (r: Session)
        ensures
            r.process is None,
            r.scan_state is None,
    {
        Session { process: None, scan_state: None }
    }

    /// Record an attach to process `pid` named `name`: the scan session
    /// starts afresh. Returns the confirmation message.
    pub fn attach(&mut self, pid: u32, name: String) -> (r: String)
        ensures
            final(self).process matches Some(p) && p.pid == pid && p.name@ == name@,
            final(self).scan_state is None,
            r@ == attached_text(pid, name@),
    {
        let mut out: Vec<char> = Vec::new();
        push_str(&mut out, "Attached to ");
        push_str(&mut out, name.as_str());
        push_str(&mut out, " (PID ");
        push_decimal(&mut out, pid as u64);
        push_str(&mut out, ")");
        self.process = Some(AttachedProcess { pid, name });
        self.scan_state = None;
        string_from_chars(out.as_slice())
    }

    /// Record a detach: no process, no freezer, no scan.
    pub fn detach(&mut self)
        ensures
            final(self).process is None,
            final(self).scan_state is None,
    {
        self.process = None;
        self.scan_state = None;
    }

    /// Whether a command that needs the target may go on: an error when no
    /// process is attached.
    pub fn require_process(&self) -> (r: Result<(), String>)
        ensures
            r is Ok <==> self.process is Some,
            r matches Err(m) ==> m@ == "No process attached"@,
    {
        match &self.process {
            Some(_) => Ok(()),
            None => Err("No process attached".to_owned()),
        }
    }

    /// Whether a freeze command may go on: an error when no freezer runs,
    /// that is, when no process is attached.
    pub fn require_freezer(&self) -> (r: Result<(), String>)
        ensures
            r is Ok <==> self.process is Some,
            r matches Err(m) ==> m@ == "No freezer active"@,
    {
        match &self.process {
            Some(_) => Ok(()),
            None => Err("No freezer active".to_owned()),
        }
    }

    /// The results that a next scan filters: an error when no process is
    /// attached, or else when no scan has been run.
    pub fn previous_results(&self) -> (r: Result<&Vec<FoundAddress>, String>)
        ensures
            self.process is None ==> (r matches Err(m) && m@ == "No process attached"@),
            self.process is Some && self.scan_state is None ==> (r matches Err(m) && m@
                == "No previous scan — run First Scan first"@),
            self.process is Some && self.scan_state is Some ==> (r matches Ok(v) && v
                == self.scan_state->0.results),
    {
        if self.process.is_none() {
            return Err("No process attached".to_owned());
        }
        match &self.scan_state {
            Some(s) => Ok(&s.results),
            None => Err("No previous scan — run First Scan first".to_owned()),
        }
    }

    /// Record the results of a first scan for `value`: a new scan session
    /// whose first scan found `results`.
    pub fn record_first_scan(&mut self, value: &ScanValue, results: Vec<FoundAddress>) -> (r: ScanSummary)
        requires
            value@.fits(),
        ensures
            final(self).process == old(self).process,
            final(self).scan_state matches Some(s) && s.results == results && s.scan_count == 1
                && s.value_type == value@.value_type(),
            r.found == results@.len(),
            r.scan_number == 1,
    {
        let found = results.len();
        let value_type = value.value_type();
        self.scan_state = Some(ScanState { results, scan_count: 1, value_type });
        ScanSummary { found, scan_number: 1 }
    }

    /// Record the results of a next scan: they replace the earlier ones and
    /// the scan count goes up by one.
    pub fn record_next_scan(&mut self, results: Vec<FoundAddress>) -> (r: ScanSummary)
        requires
            old(self).scan_state matches Some(s) && s.scan_count < u32::MAX,
        ensures
            final(self).process == old(self).process,
            final(self).scan_state matches Some(s) && s.results == results && s.scan_count
                == old(self).scan_state->0.scan_count + 1 && s.value_type
                == old(self).scan_state->0.value_type,
            r.found == results@.len(),
            r.scan_number == old(self).scan_state->0.scan_count + 1,
    {
        let found = results.len();
        let mut state = self.scan_state.take().unwrap();
        state.results = results;
        state.scan_count = state.scan_count + 1;
        let scan_number = state.scan_count;
        self.scan_state = Some(state);
        ScanSummary { found, scan_number }
    }

    /// End the scan session.
    pub fn reset_scan(&mut self)
        ensures
            final(self).process == old(self).process,
            final(self).scan_state is None,
    {
        self.scan_state = None;
    }

    /// The results from `offset` on, at most `limit` of them; an error when
    /// there is no scan session.
    pub fn get_scan_results(&self, offset: usize, limit: usize) -> (r: Result<Vec<FoundAddress>, String>)
        requires
            self.scan_state is Some ==> offset + limit <= usize::MAX,
        ensures
            self.scan_state is None ==> (r matches Err(m) && m@ == "No scan results"@),
            self.scan_state matches Some(s) ==> (r matches Ok(v) && found_views(v@) == page(
                found_views(s.results@),
                offset as nat,
                limit as nat,
            )),
    {
        let scan = match &self.scan_state {
            Some(s) => s,
            None => return Err("No scan results".to_owned()),
        };
        let len = scan.results.len();
        let end = if offset + limit < len { offset + limit } else { len };
        let mut out: Vec<FoundAddress> = Vec::new();
        if offset >= len {
            assert(found_views(out@) =~= Seq::<FoundAddressView>::empty());
            return Ok(out);
        }
        let ghost all = found_views(scan.results@);
        let mut i: usize = offset;
        while i < end
            invariant
                offset <= i <= end <= len,
                len == scan.results@.len(),
                all == found_views(scan.results@),
                found_views(out@) == all.subrange(offset as int, i as int),
            decreases end - i,
        {
            let ghost old_out = found_views(out@);
            let f = scan.results[i].duplicate();
            assert(all[i as int] == f@);
            out.push(f);
            assert(found_views(out@) =~= old_out.push(f@));
            i = i + 1;
            assert(found_views(out@) =~= all.subrange(offset as int, i as int));
        }
        Ok(out)
    }
}

} // verus!

verus! {

/// Two consecutive pages read together are the page that spans both.
pub proof fn lemma_pages_concat(results: Seq<FoundAddressView>, offset: nat, first: nat, second: nat)
    ensures
        page(results, offset, first) + page(results, offset + first, second) == page(
            results,
            offset,
            first + second,
        ),
{
    let a = page(results, offset, first);
    let b = page(results, offset + first, second);
    let c = page(results, offset, first + second);
    assert(a + b =~= c);
}

/// Every page holds at most `limit` results, each the result at its place.
pub proof fn lemma_page_entries(results: Seq<FoundAddressView>, offset: nat, limit: nat)
    ensures
        page(results, offset, limit).len() <= limit,
        forall|i: int|
            0 <= i < page(results, offset, limit).len() ==> #[trigger] page(results, offset, limit)[i]
                == results[offset + i],
{
}

} // verus!

verus! {

/// The first `m` pages of `limit` results each, in order.
pub open spec fn pages(results: Seq<FoundAddressView>, limit: nat, m: nat) -> Seq<Seq<FoundAddressView>> {
    Seq::new(m, |i: int| page(results, (i * limit) as nat, limit))
}

/// Reading the pages of `limit` results one after another, from offset zero
/// in steps of `limit`, gives all results exactly once, in order: page `i`
/// holds the `limit` results from `i * limit` on (fewer at the end, none past
/// it), and once `m` pages reach the end, together they are all the results.
pub proof fn lemma_all_pages(results: Seq<FoundAddressView>, limit: nat, m: nat)
    requires
        limit > 0,
    ensures
        forall|i: int|
            0 <= i < m ==> (#[trigger] pages(results, limit, m)[i]).len() == if i * limit < results.len() {
                if results.len() - i * limit < limit {
                    (results.len() - i * limit) as nat
                } else {
                    limit
                }
            } else {
                0
            },
        m * limit >= results.len() ==> pages(results, limit, m).flatten() == results,
    decreases m,
{
    if m > 0 {
        let m1 = (m - 1) as nat;
        lemma_all_pages(results, limit, m1);
        let ps = pages(results, limit, m);
        let ps1 = pages(results, limit, m1);
        let last = page(results, (m1 * limit) as nat, limit);
        assert(ps =~= ps1.push(last));
        ps1.lemma_flatten_push(last);
        lemma_pages_prefix(results, limit, m);
        assert(m * limit == m1 * limit + limit) by (nonlinear_arith)
            requires
                m1 == m - 1,
        ;
        if m * limit >= results.len() {
            assert(results.subrange(0, results.len() as int) =~= results);
        }
        assert forall|i: int| 0 <= i < m implies (#[trigger] ps[i]).len() == if i * limit < results.len() {
            if results.len() - i * limit < limit {
                (results.len() - i * limit) as nat
            } else {
                limit
            }
        } else {
            0
        } by {
            assert(i * limit >= 0) by (nonlinear_arith)
                requires
                    i >= 0,
            ;
        }
    }
}

/// The first `m` pages together are the results up to `m * limit`.
proof fn lemma_pages_prefix(results: Seq<FoundAddressView>, limit: nat, m: nat)
    ensures
        pages(results, limit, m).flatten() == results.subrange(
            0,
            if m * limit < results.len() {
                (m * limit) as int
            } else {
                results.len() as int
            },
        ),
    decreases m,
{
    if m == 0 {
        assert(pages(results, limit, m) =~= Seq::<Seq<FoundAddressView>>::empty());
        assert(results.subrange(0, 0) =~= Seq::<FoundAddressView>::empty());
    } else {
        let m1 = (m - 1) as nat;
        lemma_pages_prefix(results, limit, m1);
        let ps = pages(results, limit, m);
        let ps1 = pages(results, limit, m1);
        let o = m1 * limit;
        assert(o >= 0) by (nonlinear_arith)
            requires
                m1 >= 0,
                limit >= 0,
        ;
        let last = page(results, o as nat, limit);
        assert(ps =~= ps1.push(last));
        ps1.lemma_flatten_push(last);
        assert(m * limit == o + limit) by (nonlinear_arith)
            requires
                m1 == m - 1,
                o == m1 * limit,
        ;
        let end1: int = if o < results.len() { o as int } else { results.len() as int };
        let end: int = if m * limit < results.len() { (m * limit) as int } else { results.len() as int };
        assert(results.subrange(0, end1) + last =~= results.subrange(0, end));
    }
}

} // verus!
