//! The reconciliation engine: one refresh pass prunes stale keys, applies
//! completed loads in whatever order they finish, sweeps the pending
//! navigation target, and keeps the focus-default policy.
//!
//! The host drives it with plain values: a status snapshot begins a pass,
//! each completed load is registered as it arrives, and the end-of-cycle
//! sweep closes the pass. Everything asynchronous — the change signal, the
//! document and diff collaborators — lives outside; the engine only
//! decides.

use vstd::prelude::*;
use crate::merged_view::{MergedView, RowRange, entry_of, key_index, seq_has_key};
use crate::path_key::{ChangeEntry, FileStatus, PathKey, classify, clone_bytes};

verus! {

/// Rows of context materialized around each diff hunk.
pub const CONTEXT_MARGIN: u32 = 2;

/// Where keyboard focus lives, as far as this view is concerned.
#[derive(Clone, Copy, Debug, PartialEq, Eq, Structural)]
pub enum FocusRegion {
    /// The view's empty-state container frame holds focus.
    Container,
    /// The diff editor inside the view holds focus.
    Editor,
    /// Focus is somewhere else in the application.
    Elsewhere,
}

/// Focus-default policy: an empty view pulls focus out of the editor back
/// to the container frame; a view that turns non-empty while its container
/// holds focus hands focus to the editor. Focus held elsewhere is never
/// stolen.
pub open spec fn spec_focus_after(now_empty: bool, focus: FocusRegion) -> FocusRegion {
    if now_empty && focus == FocusRegion::Editor {
        FocusRegion::Container
    } else if !now_empty && focus == FocusRegion::Container {
        FocusRegion::Editor
    } else {
        focus
    }
}

/// Executable counterpart of `spec_focus_after`.
pub fn focus_after(now_empty: bool, focus: FocusRegion) -> (r: FocusRegion)
    ensures
        r == spec_focus_after(now_empty, focus),
{
    if now_empty && focus == FocusRegion::Editor {
        FocusRegion::Container
    } else if !now_empty && focus == FocusRegion::Container {
        FocusRegion::Editor
    } else {
        focus
    }
}

/// A hunk range widened by the context margin on each side, saturating at
/// the row type's bounds.
pub open spec fn spec_expand(r: RowRange) -> RowRange {
    RowRange {
        start: if r.start >= CONTEXT_MARGIN {
            (r.start - CONTEXT_MARGIN) as u32
        } else {
            0u32
        },
        end: if r.end <= u32::MAX - CONTEXT_MARGIN {
            (r.end + CONTEXT_MARGIN) as u32
        } else {
            u32::MAX
        },
    }
}

/// Widens each hunk range by the context margin.
pub fn expand_ranges(hunks: &Vec<RowRange>) -> (out: Vec<RowRange>)
    ensures
        out@.len() == hunks@.len(),
        forall|i: int| 0 <= i < out@.len() ==> out@[i] == spec_expand(hunks@[i]),
{
    let mut out: Vec<RowRange> = Vec::new();
    let mut i: usize = 0;
    while i < hunks.len()
        invariant
            i <= hunks@.len(),
            out@.len() == i,
            forall|j: int| 0 <= j < i ==> out@[j] == spec_expand(hunks@[j]),
        decreases hunks@.len() - i,
    {
        let r = hunks[i];
        let start = if r.start >= CONTEXT_MARGIN {
            r.start - CONTEXT_MARGIN
        } else {
            0
        };
        let end = if r.end <= u32::MAX - CONTEXT_MARGIN {
            r.end + CONTEXT_MARGIN
        } else {
            u32::MAX
        };
        out.push(RowRange { start, end });
        i = i + 1;
    }
    out
}

/// One completed load: the key, the opened document, the diff hunk ranges
/// against the committed baseline, and the status snapshot taken when the
/// load was issued.
#[derive(Debug)]
pub struct DiffBuffer {
    pub path_key: PathKey,
    pub document_id: u64,
    pub hunks: Vec<RowRange>,
    pub file_status: FileStatus,
}

/// One load the host is asked to perform: open the document for this key
/// and diff it against the baseline.
#[derive(Debug)]
pub struct LoadRequest {
    pub path_key: PathKey,
    pub file_status: FileStatus,
}

/// What one registration decided, for the host to act on.
#[derive(Debug)]
pub struct RegisterOutcome {
    /// The key was previously absent from the view.
    pub newly_added: bool,
    /// The view was empty immediately before this insertion: the cursor
    /// defaults to the start of the view.
    pub select_start: bool,
    /// A pending navigation target matched this key; scroll to this
    /// visible position.
    pub navigate_to: Option<usize>,
}

impl LoadRequest {
    /// Mathematical equality of load requests.
    pub open spec fn eqv(self, other: LoadRequest) -> bool {
        self.path_key.eqv(other.path_key) && self.file_status == other.file_status
    }
}

/// The load requests one status snapshot gives rise to: one per relevant
/// entry, in snapshot order, keyed by the classification policy.
pub open spec fn spec_requests(entries: Seq<ChangeEntry>) -> Seq<LoadRequest>
    decreases entries.len(),
{
    if entries.len() == 0 {
        Seq::empty()
    } else {
        spec_requests(entries.drop_last()) + (if entries.last().relevant() {
            seq![
                LoadRequest {
                    path_key: entries.last().spec_key(),
                    file_status: entries.last().status,
                },
            ]
        } else {
            Seq::empty()
        })
    }
}

/// Pointwise equality of request sequences.
pub open spec fn requests_eqv(a: Seq<LoadRequest>, b: Seq<LoadRequest>) -> bool {
    a.len() == b.len() && forall|i: int| 0 <= i < a.len() ==> #[trigger] a[i].eqv(b[i])
}

/// Whether the snapshot asks the view to track `k`: some relevant entry
/// classifies to it.
pub open spec fn in_targets(entries: Seq<ChangeEntry>, k: PathKey) -> bool {
    exists|j: int|
        0 <= j < entries.len() && #[trigger] entries[j].spec_key().eqv(k) && entries[j].relevant()
}

/// Whether any request in the sequence carries the key `k`.
pub open spec fn req_has(reqs: Seq<LoadRequest>, k: PathKey) -> bool {
    exists|j: int| 0 <= j < reqs.len() && #[trigger] reqs[j].path_key.eqv(k)
}

/// Whether any key in the list is the key `k`.
pub open spec fn key_list_has(keys: Seq<PathKey>, k: PathKey) -> bool {
    exists|p: int| 0 <= p < keys.len() && #[trigger] keys[p].eqv(k)
}

/// A prefix of the key list carries `k`.
pub open spec fn key_list_prefix_has(keys: Seq<PathKey>, n: int, k: PathKey) -> bool {
    exists|p: int| 0 <= p < n && p < keys.len() && #[trigger] keys[p].eqv(k)
}

/// The requests of a snapshot carry exactly the snapshot's target keys.
pub proof fn lemma_requests_targets(entries: Seq<ChangeEntry>, k: PathKey)
    ensures
        req_has(spec_requests(entries), k) == in_targets(entries, k),
    decreases entries.len(),
{
    if entries.len() > 0 {
        let pre = entries.drop_last();
        let r = spec_requests(entries);
        let rp = spec_requests(pre);
        lemma_requests_targets(pre, k);
        if in_targets(entries, k) {
            let j = choose|j: int|
                0 <= j < entries.len() && #[trigger] entries[j].spec_key().eqv(k)
                    && entries[j].relevant();
            if j < entries.len() - 1 {
                assert(pre[j] == entries[j]);
                assert(in_targets(pre, k));
                let i = choose|i: int| 0 <= i < rp.len() && #[trigger] rp[i].path_key.eqv(k);
                assert(r[i] == rp[i]);
                assert(r[i].path_key.eqv(k));
            } else {
                assert(entries.last() == entries[j]);
                assert(r[r.len() - 1].path_key.eqv(k));
            }
        }
        if req_has(r, k) {
            let i = choose|i: int| 0 <= i < r.len() && #[trigger] r[i].path_key.eqv(k);
            if i < rp.len() {
                assert(rp[i] == r[i]);
                assert(rp[i].path_key.eqv(k));
                assert(in_targets(pre, k));
                let j = choose|j: int|
                    0 <= j < pre.len() && #[trigger] pre[j].spec_key().eqv(k)
                        && pre[j].relevant();
                assert(entries[j] == pre[j]);
                assert(in_targets(entries, k));
            } else {
                assert(entries.last().relevant());
                assert(entries[entries.len() - 1].spec_key().eqv(k));
                assert(in_targets(entries, k));
            }
        }
    }
}

/// Pointwise-equal request sequences carry the same keys.
pub proof fn lemma_req_has_eqv(a: Seq<LoadRequest>, b: Seq<LoadRequest>, k: PathKey)
    requires
        requests_eqv(a, b),
    ensures
        req_has(a, k) == req_has(b, k),
{
    if req_has(a, k) {
        let j = choose|j: int| 0 <= j < a.len() && #[trigger] a[j].path_key.eqv(k);
        assert(a[j].eqv(b[j]));
        assert(b[j].path_key.eqv(k));
    }
    if req_has(b, k) {
        let j = choose|j: int| 0 <= j < b.len() && #[trigger] b[j].path_key.eqv(k);
        assert(a[j].eqv(b[j]));
        assert(a[j].path_key.eqv(k));
    }
}

/// Whether any completed load carries the key `k`.
pub open spec fn loads_have(loads: Seq<DiffBuffer>, k: PathKey) -> bool {
    exists|j: int| 0 <= j < loads.len() && #[trigger] loads[j].path_key.eqv(k)
}

/// The last completed load for a key. Insertion is idempotent per key:
/// within one pass the last write wins.
pub open spec fn last_load(loads: Seq<DiffBuffer>, k: PathKey) -> DiffBuffer
    recommends
        loads_have(loads, k),
    decreases loads.len(),
{
    if loads.len() == 0 {
        arbitrary()
    } else if loads.last().path_key.eqv(k) {
        loads.last()
    } else {
        last_load(loads.drop_last(), k)
    }
}

/// The first completed load for a key: it decides the initial fold state
/// of a key the pass adds.
pub open spec fn first_load(loads: Seq<DiffBuffer>, k: PathKey) -> DiffBuffer
    recommends
        loads_have(loads, k),
    decreases loads.len(),
{
    if loads.len() == 0 {
        arbitrary()
    } else if loads[0].path_key.eqv(k) {
        loads[0]
    } else {
        first_load(loads.drop_first(), k)
    }
}

pub proof fn lemma_loads_have_push(s: Seq<DiffBuffer>, d: DiffBuffer, k: PathKey)
    ensures
        loads_have(s.push(d), k) == (loads_have(s, k) || d.path_key.eqv(k)),
{
    let sp = s.push(d);
    if loads_have(s, k) {
        let j = choose|j: int| 0 <= j < s.len() && #[trigger] s[j].path_key.eqv(k);
        assert(sp[j].path_key.eqv(k));
    }
    if d.path_key.eqv(k) {
        assert(sp[s.len() as int].path_key.eqv(k));
    }
    if loads_have(sp, k) {
        let j = choose|j: int| 0 <= j < sp.len() && #[trigger] sp[j].path_key.eqv(k);
        if j < s.len() {
            assert(s[j].path_key.eqv(k));
        } else {
            assert(sp[j] == d);
        }
    }
}

pub proof fn lemma_last_load_push(s: Seq<DiffBuffer>, d: DiffBuffer, k: PathKey)
    ensures
        d.path_key.eqv(k) ==> last_load(s.push(d), k) == d,
        !d.path_key.eqv(k) ==> last_load(s.push(d), k) == last_load(s, k),
{
    let sp = s.push(d);
    assert(sp.last() == d);
    assert(sp.drop_last() =~= s);
}

pub proof fn lemma_first_load_push(s: Seq<DiffBuffer>, d: DiffBuffer, k: PathKey)
    ensures
        loads_have(s, k) ==> first_load(s.push(d), k) == first_load(s, k),
        !loads_have(s, k) && d.path_key.eqv(k) ==> first_load(s.push(d), k) == d,
    decreases s.len(),
{
    let sp = s.push(d);
    if s.len() == 0 {
        assert(sp[0] == d);
    } else {
        assert(sp[0] == s[0]);
        if s[0].path_key.eqv(k) {
            assert(loads_have(s, k));
        } else {
            assert(sp.drop_first() =~= s.drop_first().push(d));
            lemma_first_load_push(s.drop_first(), d, k);
            if loads_have(s, k) {
                let j = choose|j: int| 0 <= j < s.len() && #[trigger] s[j].path_key.eqv(k);
                assert(j != 0);
                assert(s.drop_first()[j - 1].path_key.eqv(k));
                assert(loads_have(s.drop_first(), k));
            }
            if loads_have(s.drop_first(), k) {
                let j = choose|j: int|
                    0 <= j < s.drop_first().len() && #[trigger] s.drop_first()[j].path_key.eqv(k);
                assert(s[j + 1].path_key.eqv(k));
                assert(loads_have(s, k));
            }
        }
    }
}

/// What one refresh pass guarantees of the merged view: keys the snapshot
/// no longer reports are gone, every loaded key is present with its
/// last-written record, and every other tracked key is untouched.
pub open spec fn refresh_post(
    prev: MergedView,
    cur: MergedView,
    entries: Seq<ChangeEntry>,
    loads: Seq<DiffBuffer>,
) -> bool {
    &&& forall|k: PathKey|
        #[trigger] cur.has_key(k) == ((prev.has_key(k) && in_targets(entries, k)) || loads_have(
            loads,
            k,
        ))
    &&& forall|k: PathKey|
        #[trigger] loads_have(loads, k) ==> {
            let e = cur.entry(k);
            let d = last_load(loads, k);
            &&& e.key.eqv(k)
            &&& e.document_id == d.document_id
            &&& e.ranges@.len() == d.hunks@.len()
            &&& (forall|i: int|
                0 <= i < d.hunks@.len() ==> e.ranges@[i] == spec_expand(d.hunks@[i]))
            &&& e.folded == (if prev.has_key(k) && in_targets(entries, k) {
                prev.entry(k).folded
            } else {
                first_load(loads, k).file_status.is_deleted()
            })
        }
    &&& forall|k: PathKey|
        #![trigger cur.has_key(k), loads_have(loads, k)]
        cur.has_key(k) && !loads_have(loads, k) ==> prev.has_key(k) && cur.entry(k) == prev.entry(
            k,
        )
}

/// Whether any of the given requests carries the key `k`.
fn requests_contain(requests: &Vec<LoadRequest>, k: &PathKey) -> (r: bool)
    ensures
        r == req_has(requests@, *k),
{
    let mut i: usize = 0;
    while i < requests.len()
        invariant
            i <= requests@.len(),
            forall|j: int| 0 <= j < i ==> !(#[trigger] requests@[j].path_key.eqv(*k)),
        decreases requests@.len() - i,
    {
        if requests[i].path_key.eq_key(k) {
            return true;
        }
        i = i + 1;
    }
    false
}

/// The engine's state: the merged view, the single-slot navigation memory,
/// and where focus lives under the focus-default policy.
#[derive(Debug)]
pub struct ProjectDiff {
    pub view: MergedView,
    pub pending_scroll: Option<PathKey>,
    pub focus: FocusRegion,
}

impl ProjectDiff {
    pub open spec fn wf(self) -> bool {
        self.view.wf()
    }

    /// A fresh engine: empty view, no pending target, focus elsewhere.
    pub fn new() -> (this: ProjectDiff)
        ensures
            this.wf(),
            this.view.spec_len() == 0,
            this.pending_scroll is None,
            this.focus == FocusRegion::Elsewhere,
    {
        ProjectDiff { view: MergedView::new(), pending_scroll: None, focus: FocusRegion::Elsewhere }
    }

    /// One refresh tick, first half: prune and plan. With no active
    /// repository the view is emptied. Otherwise every relevant status
    /// entry becomes one load request, and keys tracked before but absent
    /// from the new snapshot are removed at once — deletion needs no data
    /// and must not wait for slow loads.
    pub fn begin_refresh(&mut self, status: Option<&Vec<ChangeEntry>>) -> (requests: Vec<
        LoadRequest,
    >)
        requires
            old(self).wf(),
        ensures
            final(self).wf(),
            final(self).pending_scroll == old(self).pending_scroll,
            final(self).focus == old(self).focus,
            match status {
                None => final(self).view.spec_len() == 0 && requests@.len() == 0,
                Some(entries) => {
                    &&& requests_eqv(requests@, spec_requests(entries@))
                    &&& forall|k: PathKey|
                        #[trigger] final(self).view.has_key(k) == (old(self).view.has_key(k)
                            && in_targets(entries@, k))
                    &&& forall|k: PathKey|
                        #[trigger] final(self).view.has_key(k) ==> final(self).view.entry(k)
                            == old(self).view.entry(k)
                },
            },
    {
        let entries = match status {
            None => {
                self.view = MergedView::new();
                return Vec::new();
            },
            Some(entries) => entries,
        };
        // plan: one load request per relevant entry, in snapshot order
        let mut requests: Vec<LoadRequest> = Vec::new();
        let mut i: usize = 0;
        proof {
            assert(entries@.take(0) =~= Seq::<ChangeEntry>::empty());
        }
        while i < entries.len()
            invariant
                i <= entries@.len(),
                requests_eqv(requests@, spec_requests(entries@.take(i as int))),
            decreases entries@.len() - i,
        {
            let ghost t0 = entries@.take(i as int);
            let ghost t1 = entries@.take(i + 1);
            let e = &entries[i];
            if e.status != FileStatus::Unchanged && e.openable {
                let namespace = classify(e.status, e.conflicted);
                requests.push(
                    LoadRequest {
                        path_key: PathKey { namespace, path: clone_bytes(&e.path) },
                        file_status: e.status,
                    },
                );
            }
            proof {
                assert(t1.drop_last() =~= t0);
                assert(t1.last() == entries@[i as int]);
                if !entries@[i as int].relevant() {
                    assert(spec_requests(t1) =~= spec_requests(t0));
                }
            }
            i = i + 1;
        }
        proof {
            assert(entries@.take(entries@.len() as int) =~= entries@);
        }
        // prune: collect previously-tracked keys the snapshot dropped
        let ghost v0 = self.view;
        let mut stale: Vec<PathKey> = Vec::new();
        let mut i: usize = 0;
        while i < self.view.len()
            invariant
                self.view == v0,
                v0.wf(),
                i <= v0.spec_len(),
                forall|p: int|
                    0 <= p < stale@.len() ==> seq_has_key(v0.rep(), #[trigger] stale@[p])
                        && !req_has(requests@, stale@[p]),
                forall|j: int|
                    0 <= j < i ==> req_has(requests@, #[trigger] v0.rep()[j].key) || key_list_has(
                        stale@,
                        v0.rep()[j].key,
                    ),
            decreases v0.spec_len() - i,
        {
            let ghost stale0 = stale@;
            let k = self.view.get(i).key.clone_key();
            let in_requests = requests_contain(&requests, &k);
            if !in_requests {
                stale.push(k);
            }
            proof {
                let kv = v0.rep()[i as int].key;
                if in_requests {
                    let j2 = choose|j2: int|
                        0 <= j2 < requests@.len() && #[trigger] requests@[j2].path_key.eqv(k);
                    assert(requests@[j2].path_key.eqv(kv));
                    assert(req_has(requests@, kv));
                } else {
                    assert(stale@[stale0.len() as int] == k);
                    assert(kv.eqv(k));
                    assert(seq_has_key(v0.rep(), k));
                    assert(k.eqv(kv));
                    assert(key_list_has(stale@, kv));
                    assert forall|p: int| 0 <= p < stale@.len() implies seq_has_key(
                        v0.rep(),
                        #[trigger] stale@[p],
                    ) && !req_has(requests@, stale@[p]) by {
                        if p < stale0.len() {
                            assert(stale@[p] == stale0[p]);
                        }
                    }
                    assert forall|j: int| 0 <= j < i + 1 implies req_has(
                        requests@,
                        #[trigger] v0.rep()[j].key,
                    ) || key_list_has(stale@, v0.rep()[j].key) by {
                        if j < i && !req_has(requests@, v0.rep()[j].key) {
                            let p = choose|p: int|
                                0 <= p < stale0.len() && #[trigger] stale0[p].eqv(v0.rep()[j].key);
                            assert(stale@[p] == stale0[p]);
                            assert(key_list_has(stale@, v0.rep()[j].key));
                        }
                    }
                }
            }
            i = i + 1;
        }
        // apply the removals before any load can complete
        let ghost stale_s = stale@;
        let ghost pend0 = self.pending_scroll;
        let ghost focus0 = self.focus;
        let mut r: usize = 0;
        while r < stale.len()
            invariant
                stale@ == stale_s,
                self.view.wf(),
                self.pending_scroll == pend0,
                self.focus == focus0,
                v0.wf(),
                r <= stale_s.len(),
                forall|p: int|
                    0 <= p < stale_s.len() ==> seq_has_key(v0.rep(), #[trigger] stale_s[p])
                        && !req_has(requests@, stale_s[p]),
                forall|k: PathKey|
                    #[trigger] self.view.has_key(k) == (v0.has_key(k) && !key_list_prefix_has(
                        stale_s,
                        r as int,
                        k,
                    )),
                forall|k: PathKey|
                    #[trigger] self.view.has_key(k) ==> self.view.entry(k) == v0.entry(k),
            decreases stale_s.len() - r,
        {
            let ghost vprev = self.view;
            self.view.remove_excerpts(&stale[r]);
            proof {
                assert forall|k: PathKey| #[trigger] self.view.has_key(k) == (v0.has_key(k)
                    && !key_list_prefix_has(stale_s, r + 1, k)) by {
                    crate::merged_view::lemma_key_congruence(
                        self.view.rep(),
                        stale_s[r as int],
                        stale_s[r as int],
                    );
                    if k.eqv(stale_s[r as int]) {
                        crate::merged_view::lemma_key_congruence(
                            self.view.rep(),
                            stale_s[r as int],
                            k,
                        );
                        assert(!self.view.has_key(k));
                        assert(stale_s[r as int].eqv(k));
                        assert(key_list_prefix_has(stale_s, r + 1, k));
                    } else {
                        assert(self.view.has_key(k) == vprev.has_key(k));
                        if key_list_prefix_has(stale_s, r + 1, k) && !key_list_prefix_has(
                            stale_s,
                            r as int,
                            k,
                        ) {
                            let p = choose|p: int|
                                0 <= p < r + 1 && p < stale_s.len() && #[trigger] stale_s[p].eqv(
                                    k,
                                );
                            assert(p == r);
                            assert(k.eqv(stale_s[r as int]));
                        }
                        if key_list_prefix_has(stale_s, r as int, k) {
                            let p = choose|p: int|
                                0 <= p < r && p < stale_s.len() && #[trigger] stale_s[p].eqv(k);
                            assert(key_list_prefix_has(stale_s, r + 1, k));
                        }
                    }
                }
                assert forall|k: PathKey| #[trigger] self.view.has_key(k) implies self.view.entry(
                    k,
                ) == v0.entry(k) by {
                    if k.eqv(stale_s[r as int]) {
                        crate::merged_view::lemma_key_congruence(
                            self.view.rep(),
                            stale_s[r as int],
                            k,
                        );
                        assert(false);
                    }
                    assert(vprev.has_key(k));
                    assert(self.view.entry(k) == vprev.entry(k));
                }
            }
            r = r + 1;
        }
        proof {
            assert forall|k: PathKey| #[trigger] self.view.has_key(k) == (old(self).view.has_key(
                k,
            ) && in_targets(entries@, k)) by {
                lemma_req_has_eqv(requests@, spec_requests(entries@), k);
                lemma_requests_targets(entries@, k);
                if v0.has_key(k) {
                    let j = choose|j: int|
                        0 <= j < v0.rep().len() && #[trigger] v0.rep()[j].key.eqv(k);
                    assert(req_has(requests@, v0.rep()[j].key) || key_list_has(
                        stale_s,
                        v0.rep()[j].key,
                    ));
                    if req_has(requests@, v0.rep()[j].key) {
                        let j2 = choose|j2: int|
                            0 <= j2 < requests@.len() && #[trigger] requests@[j2].path_key.eqv(
                                v0.rep()[j].key,
                            );
                        assert(requests@[j2].path_key.eqv(k));
                        assert(req_has(requests@, k));
                    }
                    if in_targets(entries@, k) {
                        // nothing in the stale list carries a target key
                        if key_list_has(stale_s, k) {
                            let p = choose|p: int|
                                0 <= p < stale_s.len() && #[trigger] stale_s[p].eqv(k);
                            let j2 = choose|j2: int|
                                0 <= j2 < requests@.len() && #[trigger] requests@[j2].path_key.eqv(
                                    k,
                                );
                            assert(requests@[j2].path_key.eqv(stale_s[p]));
                            assert(req_has(requests@, stale_s[p]));
                        }
                        if key_list_prefix_has(stale_s, stale_s.len() as int, k) {
                            assert(key_list_has(stale_s, k));
                        }
                    } else {
                        assert(key_list_has(stale_s, v0.rep()[j].key));
                        let p = choose|p: int|
                            0 <= p < stale_s.len() && #[trigger] stale_s[p].eqv(v0.rep()[j].key);
                        assert(stale_s[p].eqv(k));
                        assert(key_list_prefix_has(stale_s, stale_s.len() as int, k));
                    }
                }
            }
        }
        requests
    }

    /// Applies one completed load to the merged view: widens its hunk
    /// ranges by the context margin and inserts or replaces the excerpt
    /// for its key. A newly added deleted file starts collapsed; an
    /// existing excerpt keeps its fold state. Runs the focus-default
    /// policy, and reports a navigation if this key was the pending
    /// target.
    pub fn register_buffer(&mut self, diff_buffer: &DiffBuffer) -> (outcome: RegisterOutcome)
        requires
            old(self).wf(),
        ensures
            final(self).wf(),
            // content: exactly the old view with this key's record set
            final(self).view.has_key(diff_buffer.path_key),
            final(self).view.entry(diff_buffer.path_key).key.eqv(diff_buffer.path_key),
            final(self).view.entry(diff_buffer.path_key).document_id == diff_buffer.document_id,
            final(self).view.entry(diff_buffer.path_key).ranges@.len() == diff_buffer.hunks@.len(),
            forall|i: int|
                0 <= i < diff_buffer.hunks@.len() ==> final(self).view.entry(
                    diff_buffer.path_key,
                ).ranges@[i] == spec_expand(diff_buffer.hunks@[i]),
            final(self).view.entry(diff_buffer.path_key).folded == (if old(self).view.has_key(
                diff_buffer.path_key,
            ) {
                old(self).view.entry(diff_buffer.path_key).folded
            } else {
                diff_buffer.file_status.is_deleted()
            }),
            forall|k2: PathKey|
                !k2.eqv(diff_buffer.path_key) ==> final(self).view.has_key(k2) == old(self).view.has_key(k2),
            forall|k2: PathKey|
                !k2.eqv(diff_buffer.path_key) && old(self).view.has_key(k2) ==> final(self).view.entry(k2) == old(self).view.entry(k2),
            final(self).view.spec_len() == old(self).view.spec_len() + (if outcome.newly_added {
                1int
            } else {
                0int
            }),
            // outcome flags
            outcome.newly_added == !old(self).view.has_key(diff_buffer.path_key),
            outcome.select_start == (old(self).view.spec_len() == 0),
            match outcome.navigate_to {
                Some(i) => old(self).pending_scroll matches Some(p) && p.eqv(diff_buffer.path_key)
                    && i as int == key_index(final(self).view.rep(), diff_buffer.path_key),
                None => match old(self).pending_scroll {
                    Some(p) => !p.eqv(diff_buffer.path_key),
                    None => true,
                },
            },
            // untouched state
            final(self).pending_scroll == old(self).pending_scroll,
            final(self).focus == spec_focus_after(
                final(self).view.spec_len() == 0,
                old(self).focus,
            ),
    {
        let path_key = &diff_buffer.path_key;
        let was_empty = self.view.is_empty();
        let ranges = expand_ranges(&diff_buffer.hunks);
        let folded = match self.view.location_for(path_key) {
            Some(i) => self.view.get(i).folded,
            None => diff_buffer.file_status == FileStatus::Deleted,
        };
        proof {
            if self.view.has_key(*path_key) {
                crate::merged_view::lemma_entry_at(
                    self.view.rep(),
                    *path_key,
                    key_index(self.view.rep(), *path_key),
                );
            }
        }
        let key_for_view = path_key.clone_key();
        let ghost kc = key_for_view;
        let newly_added = self.view.set_excerpts(
            key_for_view,
            diff_buffer.document_id,
            ranges,
            folded,
        );
        proof {
            // the stored key is a clone of `path_key`: lookups agree on both
            crate::merged_view::lemma_key_congruence(self.view.rep(), kc, *path_key);
            crate::merged_view::lemma_key_congruence(old(self).view.rep(), kc, *path_key);
            assert forall|k2: PathKey| !k2.eqv(*path_key) implies self.view.has_key(k2) == old(self).view.has_key(k2) by {
                assert(k2.eqv(*path_key) == k2.eqv(kc));
            }
            assert forall|k2: PathKey| !k2.eqv(*path_key) && old(self).view.has_key(k2)
                implies self.view.entry(k2) == old(self).view.entry(k2) by {
                assert(k2.eqv(*path_key) == k2.eqv(kc));
            }
        }
        self.focus = focus_after(self.view.is_empty(), self.focus);
        let navigate_to = match &self.pending_scroll {
            Some(p) => {
                if p.eq_key(path_key) {
                    self.view.location_for(path_key)
                } else {
                    None
                }
            },
            None => None,
        };
        RegisterOutcome { newly_added, select_start: was_empty, navigate_to }
    }

    /// Scroll/select the excerpt for `path_key` if one exists; otherwise
    /// remember it as the pending target (single slot, last request wins).
    pub fn move_to_path(&mut self, path_key: PathKey) -> (navigate_to: Option<usize>)
        requires
            old(self).wf(),
        ensures
            final(self).wf(),
            final(self).view == old(self).view,
            final(self).focus == old(self).focus,
            match navigate_to {
                Some(i) => old(self).view.has_key(path_key) && i as int == key_index(
                    old(self).view.rep(),
                    path_key,
                ) && final(self).pending_scroll == old(self).pending_scroll,
                None => !old(self).view.has_key(path_key) && final(self).pending_scroll == Some(
                    path_key,
                ),
            },
    {
        let loc = self.view.location_for(&path_key);
        match loc {
            Some(i) => Some(i),
            None => {
                self.pending_scroll = Some(path_key);
                None
            },
        }
    }

    /// Classifies a status entry into its namespace and navigates to its
    /// key, per `move_to_path`.
    pub fn move_to_entry(&mut self, entry: &ChangeEntry) -> (navigate_to: Option<usize>)
        requires
            old(self).wf(),
        ensures
            final(self).wf(),
            final(self).view == old(self).view,
            final(self).focus == old(self).focus,
            match navigate_to {
                Some(i) => old(self).view.has_key(entry.spec_key()) && i as int == key_index(
                    old(self).view.rep(),
                    entry.spec_key(),
                ),
                None => !old(self).view.has_key(entry.spec_key()) && (match final(self).pending_scroll {
                    Some(p) => p.eqv(entry.spec_key()),
                    None => false,
                }),
            },
    {
        let namespace = classify(entry.status, entry.conflicted);
        let key = PathKey { namespace, path: clone_bytes(&entry.path) };
        proof {
            assert(key.eqv(entry.spec_key()));
        }
        let ghost k = key;
        let r = self.move_to_path(key);
        proof {
            // lookups agree on the clone and on the entry's own key
            crate::merged_view::lemma_key_congruence(old(self).view.rep(), k, entry.spec_key());
        }
        r
    }

    /// End-of-cycle sweep: if the pending target now has an excerpt,
    /// navigate to it; satisfied or not, the pending target is cleared
    /// (single shot — a target that never materializes is forgotten).
    pub fn finish_refresh(&mut self) -> (navigate_to: Option<usize>)
        requires
            old(self).wf(),
        ensures
            final(self).wf(),
            final(self).view == old(self).view,
            final(self).focus == old(self).focus,
            final(self).pending_scroll is None,
            match old(self).pending_scroll {
                None => navigate_to is None,
                Some(p) => match navigate_to {
                    Some(i) => old(self).view.has_key(p) && i as int == key_index(
                        old(self).view.rep(),
                        p,
                    ),
                    None => !old(self).view.has_key(p),
                },
            },
    {
        let navigate_to = match &self.pending_scroll {
            Some(p) => self.view.location_for(p),
            None => None,
        };
        self.pending_scroll = None;
        navigate_to
    }

    /// One full refresh tick, as the background worker runs it: prune
    /// against the new snapshot, apply every completed load in completion
    /// order, then sweep the pending navigation target. The host performs
    /// the loads between the planning and the registrations; the completed
    /// ones arrive here as plain values. A failed load is simply absent
    /// from `loads` — its path is skipped this cycle and eligible again on
    /// the next tick.
    pub fn handle_status_updates(
        &mut self,
        status: Option<&Vec<ChangeEntry>>,
        loads: &Vec<DiffBuffer>,
    ) -> (navigate_to: Option<usize>)
        requires
            old(self).wf(),
        ensures
            final(self).wf(),
            final(self).pending_scroll is None,
            match status {
                None => refresh_post(
                    old(self).view,
                    final(self).view,
                    Seq::<ChangeEntry>::empty(),
                    loads@,
                ),
                Some(entries) => refresh_post(old(self).view, final(self).view, entries@, loads@),
            },
            match old(self).pending_scroll {
                None => navigate_to is None,
                Some(p) => match navigate_to {
                    Some(i) => final(self).view.has_key(p) && i as int == key_index(
                        final(self).view.rep(),
                        p,
                    ),
                    None => !final(self).view.has_key(p),
                },
            },
            final(self).focus == (if loads@.len() > 0 {
                spec_focus_after(false, old(self).focus)
            } else {
                old(self).focus
            }),
    {
        let _requests = self.begin_refresh(status);
        let ghost vb = self.view;
        let ghost pend0 = self.pending_scroll;
        let ghost focus0 = self.focus;
        let mut idx: usize = 0;
        proof {
            assert(loads@.take(0) =~= Seq::<DiffBuffer>::empty());
        }
        while idx < loads.len()
            invariant
                idx <= loads@.len(),
                self.view.wf(),
                vb.wf(),
                self.pending_scroll == pend0,
                self.focus == (if idx > 0 {
                    spec_focus_after(false, focus0)
                } else {
                    focus0
                }),
                forall|k: PathKey|
                    #[trigger] self.view.has_key(k) == (vb.has_key(k) || loads_have(
                        loads@.take(idx as int),
                        k,
                    )),
                forall|k: PathKey|
                    #[trigger] loads_have(loads@.take(idx as int), k) ==> {
                        let e = self.view.entry(k);
                        let d = last_load(loads@.take(idx as int), k);
                        &&& e.key.eqv(k)
                        &&& e.document_id == d.document_id
                        &&& e.ranges@.len() == d.hunks@.len()
                        &&& (forall|i: int|
                            0 <= i < d.hunks@.len() ==> e.ranges@[i] == spec_expand(d.hunks@[i]))
                        &&& e.folded == (if vb.has_key(k) {
                            vb.entry(k).folded
                        } else {
                            first_load(loads@.take(idx as int), k).file_status.is_deleted()
                        })
                    },
                forall|k: PathKey|
                    #![trigger self.view.has_key(k), loads_have(loads@.take(idx as int), k)]
                    self.view.has_key(k) && !loads_have(loads@.take(idx as int), k)
                        ==> vb.has_key(k) && self.view.entry(k) == vb.entry(k),
            decreases loads@.len() - idx,
        {
            let ghost svprev = self.view;
            let ghost tk = loads@.take(idx as int);
            let ghost d = loads@[idx as int];
            let _outcome = self.register_buffer(&loads[idx]);
            proof {
                let tk1 = loads@.take(idx + 1);
                assert(tk1 =~= tk.push(d));
                assert forall|k: PathKey| #[trigger] self.view.has_key(k) == (vb.has_key(k)
                    || loads_have(tk1, k)) by {
                    lemma_loads_have_push(tk, d, k);
                    if k.eqv(d.path_key) {
                        crate::merged_view::lemma_key_congruence(self.view.rep(), d.path_key, k);
                        assert(d.path_key.eqv(k));
                        assert(loads_have(tk1, k));
                    }
                }
                assert forall|k: PathKey| #[trigger] loads_have(tk1, k) implies {
                    let e = self.view.entry(k);
                    let dd = last_load(tk1, k);
                    &&& e.key.eqv(k)
                    &&& e.document_id == dd.document_id
                    &&& e.ranges@.len() == dd.hunks@.len()
                    &&& (forall|i: int|
                        0 <= i < dd.hunks@.len() ==> e.ranges@[i] == spec_expand(dd.hunks@[i]))
                    &&& e.folded == (if vb.has_key(k) {
                        vb.entry(k).folded
                    } else {
                        first_load(tk1, k).file_status.is_deleted()
                    })
                } by {
                    lemma_loads_have_push(tk, d, k);
                    lemma_last_load_push(tk, d, k);
                    lemma_first_load_push(tk, d, k);
                    if k.eqv(d.path_key) {
                        crate::merged_view::lemma_key_congruence(self.view.rep(), d.path_key, k);
                        crate::merged_view::lemma_key_congruence(svprev.rep(), d.path_key, k);
                        assert(d.path_key.eqv(k));
                        assert(self.view.entry(k) == self.view.entry(d.path_key));
                        assert(last_load(tk1, k) == d);
                        if vb.has_key(k) {
                            assert(svprev.has_key(k));
                        } else if loads_have(tk, k) {
                            assert(svprev.has_key(k));
                            assert(first_load(tk1, k) == first_load(tk, k));
                        } else {
                            assert(!svprev.has_key(k));
                            assert(first_load(tk1, k) == d);
                        }
                    } else {
                        assert(loads_have(tk, k));
                        assert(self.view.entry(k) == svprev.entry(k));
                        assert(last_load(tk1, k) == last_load(tk, k));
                        if !vb.has_key(k) {
                            assert(first_load(tk1, k) == first_load(tk, k));
                        }
                    }
                }
                assert forall|k: PathKey|
                    #![trigger self.view.has_key(k), loads_have(tk1, k)]
                    self.view.has_key(k) && !loads_have(tk1, k) implies vb.has_key(k)
                    && self.view.entry(k) == vb.entry(k) by {
                    lemma_loads_have_push(tk, d, k);
                    if self.view.has_key(k) && !loads_have(tk1, k) {
                        assert(!k.eqv(d.path_key));
                        assert(svprev.has_key(k));
                        assert(self.view.entry(k) == svprev.entry(k));
                    }
                }
            }
            idx = idx + 1;
        }
        proof {
            assert(loads@.take(loads@.len() as int) =~= loads@);
        }
        self.finish_refresh()
    }

    /// Which region should receive focus requests for this view right now:
    /// the empty-state container frame, or the editor showing content.
    pub fn focus_handle(&self) -> (r: FocusRegion)
        ensures
            r == (if self.view.spec_len() == 0 {
                FocusRegion::Container
            } else {
                FocusRegion::Editor
            }),
    {
        if self.view.is_empty() {
            FocusRegion::Container
        } else {
            FocusRegion::Editor
        }
    }

    /// The repository-relative path under the given cursor position, for
    /// cross-component selection syncing.
    pub fn active_path(&self, cursor: usize) -> (r: Option<Vec<u8>>)
        requires
            self.wf(),
        ensures
            match r {
                Some(p) => cursor < self.view.spec_len() && p@ == self.view.rep()[
                    cursor as int
                ].key.path@,
                None => cursor >= self.view.spec_len(),
            },
    {
        if cursor < self.view.len() {
            Some(clone_bytes(&self.view.get(cursor).key.path))
        } else {
            None
        }
    }

    /// The paths currently shown, in visible order.
    pub fn excerpt_paths(&self) -> (out: Vec<Vec<u8>>)
        requires
            self.wf(),
        ensures
            out@.len() == self.view.spec_len(),
            forall|i: int|
                0 <= i < out@.len() ==> out@[i]@ == self.view.rep()[i].key.path@,
    {
        let mut out: Vec<Vec<u8>> = Vec::new();
        let mut i: usize = 0;
        while i < self.view.len()
            invariant
                self.wf(),
                i <= self.view.spec_len(),
                out@.len() == i,
                forall|j: int| 0 <= j < i ==> out@[j]@ == self.view.rep()[j].key.path@,
            decreases self.view.spec_len() - i,
        {
            out.push(clone_bytes(&self.view.get(i).key.path));
            i = i + 1;
        }
        out
    }
}


/// Idempotence: two passes that consumed the same status snapshot and the
/// same completed loads leave identical merged views — same length, same
/// visible order, same records. In particular, applying one snapshot twice
/// changes nothing: no duplicate excerpts, no reordering.
pub proof fn lemma_refresh_idempotent(
    v0: MergedView,
    v1: MergedView,
    v2: MergedView,
    entries: Seq<ChangeEntry>,
    loads: Seq<DiffBuffer>,
)
    requires
        v1.wf(),
        v2.wf(),
        refresh_post(v0, v1, entries, loads),
        refresh_post(v1, v2, entries, loads),
    ensures
        v1.spec_len() == v2.spec_len(),
        forall|i: int| 0 <= i < v1.spec_len() ==> v1.rep()[i].eqv(v2.rep()[i]),
{
    assert forall|k: PathKey| seq_has_key(v1.rep(), k) == seq_has_key(v2.rep(), k) by {
        assert(v1.has_key(k) == ((v0.has_key(k) && in_targets(entries, k)) || loads_have(
            loads,
            k,
        )));
        assert(v2.has_key(k) == ((v1.has_key(k) && in_targets(entries, k)) || loads_have(
            loads,
            k,
        )));
    }
    assert forall|k: PathKey| seq_has_key(v1.rep(), k) implies entry_of(v1.rep(), k).eqv(
        entry_of(v2.rep(), k),
    ) by {
        let e1 = v1.entry(k);
        let e2 = v2.entry(k);
        if loads_have(loads, k) {
            assert(e1.ranges@ =~= e2.ranges@);
        } else {
            assert(v1.has_key(k));
            assert(v1.has_key(k) == (v0.has_key(k) && in_targets(entries, k)));
            assert(in_targets(entries, k));
            assert(v2.has_key(k));
            assert(e2 == e1);
        }
    }
    crate::merged_view::lemma_view_canonical(v1.rep(), v2.rep());
}


/// Mathematical equality of load records.
pub open spec fn load_eqv(a: DiffBuffer, b: DiffBuffer) -> bool {
    a.path_key.eqv(b.path_key) && a.document_id == b.document_id && a.hunks@ == b.hunks@
        && a.file_status == b.file_status
}

/// Ordering invariant: completion order does not matter. Two passes from
/// the same view, over the same snapshot, whose completed loads cover the
/// same keys with the same decisive records — as loads of one set finished
/// in any two orders do — leave identical merged views: the visible order
/// is always the sort order of (namespace, path).
pub proof fn lemma_completion_order_irrelevant(
    v0: MergedView,
    va: MergedView,
    vb: MergedView,
    entries: Seq<ChangeEntry>,
    loads_a: Seq<DiffBuffer>,
    loads_b: Seq<DiffBuffer>,
)
    requires
        va.wf(),
        vb.wf(),
        refresh_post(v0, va, entries, loads_a),
        refresh_post(v0, vb, entries, loads_b),
        forall|k: PathKey| #[trigger] loads_have(loads_a, k) == loads_have(loads_b, k),
        forall|k: PathKey|
            #[trigger] loads_have(loads_a, k) ==> load_eqv(last_load(loads_a, k), last_load(
                loads_b,
                k,
            )) && first_load(loads_a, k).file_status == first_load(loads_b, k).file_status,
    ensures
        va.spec_len() == vb.spec_len(),
        forall|i: int| 0 <= i < va.spec_len() ==> va.rep()[i].eqv(vb.rep()[i]),
{
    assert forall|k: PathKey| seq_has_key(va.rep(), k) == seq_has_key(vb.rep(), k) by {
        assert(va.has_key(k) == ((v0.has_key(k) && in_targets(entries, k)) || loads_have(
            loads_a,
            k,
        )));
        assert(vb.has_key(k) == ((v0.has_key(k) && in_targets(entries, k)) || loads_have(
            loads_b,
            k,
        )));
    }
    assert forall|k: PathKey| seq_has_key(va.rep(), k) implies entry_of(va.rep(), k).eqv(
        entry_of(vb.rep(), k),
    ) by {
        let ea = va.entry(k);
        let eb = vb.entry(k);
        if loads_have(loads_a, k) {
            assert(ea.ranges@ =~= eb.ranges@);
        } else {
            assert(va.has_key(k) && !loads_have(loads_a, k));
            assert(vb.has_key(k) && !loads_have(loads_b, k));
            assert(ea == v0.entry(k));
            assert(eb == v0.entry(k));
        }
    }
    crate::merged_view::lemma_view_canonical(va.rep(), vb.rep());
}

/// Pruning, completed: when the loads that came back cover exactly the
/// snapshot's target keys, the view tracks exactly those keys — previously
/// tracked paths the snapshot no longer reports are gone.
pub proof fn lemma_pass_exact(
    v0: MergedView,
    v1: MergedView,
    entries: Seq<ChangeEntry>,
    loads: Seq<DiffBuffer>,
)
    requires
        refresh_post(v0, v1, entries, loads),
        forall|k: PathKey| #[trigger] loads_have(loads, k) == in_targets(entries, k),
    ensures
        forall|k: PathKey| #[trigger] v1.has_key(k) == in_targets(entries, k),
{
}

} // verus!
