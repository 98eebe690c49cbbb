//! The tailer session: the full-file scan that seeds the instance catalog,
//! the run-start search, truncation detection with its reset, the per-line
//! step, and the snapshot that is handed to the publisher.
use vstd::prelude::*;

use crate::catalog::{lookup_item, ItemData, ItemDataV, ItemMap};
use crate::event::{extract_event, parse_purchase, spec_extract, spec_parse_purchase};
use crate::state::{
    map_get, map_of, map_upsert, pv, spec_initial, spec_resolve, spec_step, unique_keys,
    StateView, TailState,
};
use crate::text::{contains_sub, spec_contains, str_chars};

verus! {

/// The snapshot the publisher receives: the resolved records of the hand
/// and of the stash.
pub struct SyncPayload {
    pub hand_items: Vec<ItemData>,
    pub stash_items: Vec<ItemData>,
}

/// The instance catalog a full scan of the file builds: every purchase
/// line's instance-to-template mapping, later lines winning.
pub open spec fn spec_scan(lines: Seq<Seq<char>>) -> Map<Seq<char>, Seq<char>>
    decreases lines.len(),
{
    if lines.len() == 0 {
        Map::empty()
    } else {
        let m = spec_scan(lines.drop_last());
        match spec_parse_purchase(lines.last()) {
            Some(t) => m.insert(t.0, t.1),
            None => m,
        }
    }
}

/// Build the instance catalog by scanning every line for a purchase.
fn scan_catalog(lines: &Vec<String>) -> (r: Vec<(String, String)>)
    ensures
        unique_keys(pv(r@)),
        map_of(pv(r@)) == spec_scan(lines.deep_view()),
{
    let n = lines.len();
    let mut out: Vec<(String, String)> = Vec::new();
    let mut i: usize = 0;
    proof {
        assert(lines.deep_view().take(0) =~= Seq::<Seq<char>>::empty());
        assert(pv(out@) =~= Seq::<(Seq<char>, Seq<char>)>::empty());
    }
    while i < n
        invariant
            i <= n,
            n == lines@.len(),
            unique_keys(pv(out@)),
            map_of(pv(out@)) == spec_scan(lines.deep_view().take(i as int)),
        decreases n - i,
    {
        let ghost pre = lines.deep_view().take(i as int);
        let ghost cur = lines.deep_view().take(i + 1);
        proof {
            assert(cur.drop_last() =~= pre);
            assert(cur.last() == lines.deep_view()[i as int]);
        }
        let line = &lines[i];
        let cs = str_chars(line.as_str());
        match parse_purchase(line.as_str(), &cs) {
            Some((iid, tid, _target)) => {
                map_upsert(&mut out, iid, tid);
            },
            None => {},
        }
        i += 1;
    }
    proof {
        assert(lines.deep_view().take(n as int) =~= lines.deep_view());
    }
    out
}

/// The line the current run starts at: the last line that holds the
/// run-start marker, or the first line when none does.
pub open spec fn spec_run_start(lines: Seq<Seq<char>>) -> int
    decreases lines.len(),
{
    if lines.len() == 0 {
        0
    } else if spec_contains(lines.last(), "State changed from [null] to [StartRunAppState]"@) {
        lines.len() - 1
    } else {
        spec_run_start(lines.drop_last())
    }
}

/// Find where the current run starts, so that the tail reflects only the
/// current run and not prior runs concatenated in the same file.
pub fn find_run_start(lines: &Vec<String>) -> (r: usize)
    ensures
        r as int == spec_run_start(lines.deep_view()),
        r <= lines@.len(),
{
    let n = lines.len();
    let marker = str_chars("State changed from [null] to [StartRunAppState]");
    let mut best: usize = 0;
    let mut i: usize = 0;
    proof {
        assert(lines.deep_view().take(0) =~= Seq::<Seq<char>>::empty());
    }
    while i < n
        invariant
            i <= n,
            n == lines@.len(),
            best <= i,
            marker@ == "State changed from [null] to [StartRunAppState]"@,
            best as int == spec_run_start(lines.deep_view().take(i as int)),
        decreases n - i,
    {
        let ghost pre = lines.deep_view().take(i as int);
        let ghost cur = lines.deep_view().take(i + 1);
        proof {
            assert(cur.drop_last() =~= pre);
            assert(cur.last() == lines.deep_view()[i as int]);
        }
        let cs = str_chars(lines[i].as_str());
        if contains_sub(&cs, &marker) {
            best = i;
        }
        i += 1;
    }
    proof {
        assert(lines.deep_view().take(n as int) =~= lines.deep_view());
    }
    best
}

/// What one line does to the state: nothing when it carries no event, the
/// event's transition otherwise.
pub open spec fn spec_handle(v: StateView, line: Seq<char>) -> (StateView, bool) {
    match spec_extract(line) {
        None => (v, false),
        Some(ev) => spec_step(v, ev),
    }
}

/// One tailing session: the owned state, the last seen file size, and
/// whether the initial scan already reached the end of the file once.
pub struct Session {
    pub state: TailState,
    pub last_size: u64,
    pub initial_scan_done: bool,
}

impl Session {
    pub open spec fn wf(&self) -> bool {
        self.state.wf()
    }

    /// Open a session over the file's lines: a fresh state whose instance
    /// catalog comes from an eager full scan.
    pub fn start(lines: &Vec<String>, size: u64) -> (r: Session)
        ensures
            r.wf(),
            r.state@ == (StateView { catalog: spec_scan(lines.deep_view()), ..spec_initial() }),
            r.last_size == size,
            !r.initial_scan_done,
    {
        let mut st = TailState::new();
        st.catalog = scan_catalog(lines);
        proof {
            assert(st@ =~= (StateView { catalog: spec_scan(lines.deep_view()), ..spec_initial() }));
        }
        Session { state: st, last_size: size, initial_scan_done: false }
    }

    /// Compare the file's size to the last seen one; a shrink means the
    /// file was truncated or rotated and the session must reset.
    pub fn check_size(&mut self, current: u64) -> (shrunk: bool)
        ensures
            shrunk == (current < old(self).last_size),
            final (self).last_size == current,
            final (self).state == old(self).state,
            final (self).initial_scan_done == old(self).initial_scan_done,
    {
        let shrunk = current < self.last_size;
        self.last_size = current;
        shrunk
    }

    /// Reset after a shrink: clear the inventory state, the instance
    /// catalog and the session flags, rebuild the catalog by a fresh full
    /// scan of the (now shorter) file, and hand back the empty snapshot
    /// that is published so the consumer visibly clears its display.
    pub fn reset(&mut self, lines: &Vec<String>) -> (payload: SyncPayload)
        ensures
            final (self).wf(),
            final (self).state@ == (StateView {
                catalog: spec_scan(lines.deep_view()),
                cur_id: old(self).state@.cur_id,
                cur_owner: old(self).state@.cur_owner,
                cur_socket: old(self).state@.cur_socket,
                ..spec_initial()
            }),
            !final (self).initial_scan_done,
            final (self).last_size == old(self).last_size,
            payload.hand_items@ == Seq::<ItemData>::empty(),
            payload.stash_items@ == Seq::<ItemData>::empty(),
    {
        self.state.hand = Vec::new();
        self.state.stash = Vec::new();
        self.state.encounter = Vec::new();
        self.state.sockets = Vec::new();
        self.state.catalog = scan_catalog(lines);
        self.state.in_sync_block = false;
        self.state.hand_cleared_this_sync = false;
        self.initial_scan_done = false;
        proof {
            assert(self.state.hand.deep_view().to_set() =~= Set::<Seq<char>>::empty());
            assert(self.state.stash.deep_view().to_set() =~= Set::<Seq<char>>::empty());
            assert(self.state.encounter.deep_view() =~= Seq::<Seq<char>>::empty());
            assert(pv(self.state.sockets@) =~= Seq::<(Seq<char>, Seq<char>)>::empty());
            assert(self.state@ =~= (StateView {
                catalog: spec_scan(lines.deep_view()),
                cur_id: old(self).state@.cur_id,
                cur_owner: old(self).state@.cur_owner,
                cur_socket: old(self).state@.cur_socket,
                ..spec_initial()
            }));
        }
        SyncPayload { hand_items: Vec::new(), stash_items: Vec::new() }
    }

    /// Feed one trimmed line through the extractor and the state machine;
    /// the result says whether the state is dirty.
    pub fn handle_line(&mut self, line: &str) -> (dirty: bool)
        requires
            old(self).wf(),
        ensures
            final (self).wf(),
            (final (self).state@, dirty) == spec_handle(old(self).state@, line@),
            final (self).last_size == old(self).last_size,
            final (self).initial_scan_done == old(self).initial_scan_done,
    {
        match extract_event(line) {
            None => false,
            Some(ev) => self.state.apply_event(&ev),
        }
    }

    /// A snapshot goes out right away only when something changed and no
    /// block is being assembled; changes inside a block wait for its
    /// close, which is itself a forced change.
    pub fn should_publish(&self, dirty: bool) -> (r: bool)
        ensures
            r == (dirty && !self.state@.in_sync_block),
    {
        dirty && !self.state.in_sync_block
    }

    /// The idle branch at end of file: true exactly once, on the first
    /// idle after the initial scan, when the caller should settle briefly
    /// before the heartbeat publications begin.
    pub fn on_idle(&mut self) -> (first: bool)
        requires
            old(self).wf(),
        ensures
            final (self).wf(),
            first == !old(self).initial_scan_done,
            final (self).initial_scan_done,
            final (self).state == old(self).state,
            final (self).last_size == old(self).last_size,
    {
        let first = !self.initial_scan_done;
        self.initial_scan_done = true;
        first
    }
}

/// The resolved records for the held instances, in the order held:
/// unknown templates are omitted, known ones carry their template
/// identifier re-attached.
pub open spec fn spec_snapshot_items(
    cat: Map<Seq<char>, Seq<char>>,
    iids: Seq<Seq<char>>,
    db: Map<Seq<char>, ItemDataV>,
) -> Seq<ItemDataV>
    decreases iids.len(),
{
    if iids.len() == 0 {
        Seq::empty()
    } else {
        let rest = spec_snapshot_items(cat, iids.drop_last(), db);
        let tid = spec_resolve(cat, iids.last());
        if db.contains_key(tid) {
            rest.push(ItemDataV { id: Some(tid), ..db[tid] })
        } else {
            rest
        }
    }
}

fn resolve_items(cat: &Vec<(String, String)>, iids: &Vec<String>, items: &ItemMap) -> (r: Vec<
    ItemData,
>)
    requires
        unique_keys(pv(cat@)),
        items.wf(),
    ensures
        r.deep_view() == spec_snapshot_items(map_of(pv(cat@)), iids.deep_view(), items.view()),
{
    let n = iids.len();
    let mut out: Vec<ItemData> = Vec::new();
    let mut i: usize = 0;
    proof {
        assert(iids.deep_view().take(0) =~= Seq::<Seq<char>>::empty());
        assert(out.deep_view() =~= Seq::<ItemDataV>::empty());
    }
    while i < n
        invariant
            i <= n,
            n == iids@.len(),
            unique_keys(pv(cat@)),
            items.wf(),
            out.deep_view() == spec_snapshot_items(
                map_of(pv(cat@)),
                iids.deep_view().take(i as int),
                items.view(),
            ),
        decreases n - i,
    {
        let ghost pre = iids.deep_view().take(i as int);
        let ghost cur = iids.deep_view().take(i + 1);
        proof {
            assert(cur.drop_last() =~= pre);
            assert(cur.last() == iids.deep_view()[i as int]);
        }
        let iid = &iids[i];
        let tid: String = match map_get(cat, iid) {
            Some(t) => t,
            None => iid.clone(),
        };
        match lookup_item(tid.as_str(), items) {
            Some(item) => {
                let ghost s = out.deep_view();
                let ghost itemv = item.deep_view();
                out.push(item);
                proof {
                    assert(out.deep_view() =~= s.push(itemv));
                }
            },
            None => {},
        }
        i += 1;
    }
    proof {
        assert(iids.deep_view().take(n as int) =~= iids.deep_view());
    }
    out
}

/// The snapshot that is published: every held instance resolved to its
/// template identifier and looked up in the item catalog.
pub fn build_snapshot(state: &TailState, items: &ItemMap) -> (r: SyncPayload)
    requires
        state.wf(),
        items.wf(),
    ensures
        r.hand_items.deep_view() == spec_snapshot_items(
            state@.catalog,
            state.hand.deep_view(),
            items.view(),
        ),
        r.stash_items.deep_view() == spec_snapshot_items(
            state@.catalog,
            state.stash.deep_view(),
            items.view(),
        ),
{
    let hand_items = resolve_items(&state.catalog, &state.hand, items);
    let stash_items = resolve_items(&state.catalog, &state.stash, items);
    SyncPayload { hand_items, stash_items }
}

} // verus!
