use vstd::prelude::*;

use crate::dedup::{lemma_push_to_set, DedupSet};
use crate::item::HNItem;

verus! {

/// How many entries of the ranked list a run looks at.
pub const TOP_COUNT: usize = 10;

/// How many lookups may be outstanding at once.
pub const MAX_IN_FLIGHT: usize = 8;

/// The part of the ranked list that a run looks at: its first entries.
pub open spec fn top_window(top: Seq<u64>) -> Seq<u64> {
    if top.len() <= TOP_COUNT {
        top
    } else {
        top.take(TOP_COUNT as int)
    }
}

/// The identifiers that a run looks up: those in the window of the ranked
/// list that are not handled yet.
pub open spec fn candidate_set(top: Seq<u64>, marked: Set<u64>) -> Set<u64> {
    top_window(top).to_set().difference(marked)
}

/// The identifiers of a batch of items.
pub open spec fn ids_of(items: Seq<HNItem>) -> Set<u64> {
    Set::new(|x: u64| exists|j: int| 0 <= j < items.len() && items[j].id == x)
}

/// The handled set after a run in which `items` were resolved.
pub open spec fn marked_after(marked: Set<u64>, items: Seq<HNItem>) -> Set<u64> {
    marked.union(ids_of(items))
}

/// In ascending order of identifier, with no identifier twice.
pub open spec fn strictly_ascending(items: Seq<HNItem>) -> bool {
    forall|a: int, b: int| 0 <= a < b < items.len() ==> items[a].id < items[b].id
}

/// `sel` is what a run notifies about when `items` were resolved: the
/// notable stories, in ascending order of identifier.
pub open spec fn is_selection(sel: Seq<HNItem>, items: Seq<HNItem>) -> bool {
    &&& strictly_ascending(sel)
    &&& forall|k: int| 0 <= k < sel.len() ==> #[trigger] sel[k].notable_story() && items.contains(sel[k])
    &&& forall|j: int| 0 <= j < items.len() && #[trigger] items[j].notable_story() ==> sel.contains(items[j])
}

/// The identifiers of the first entries of `top` that are not in `marked`,
/// each once.
pub fn candidates(top: &Vec<u64>, marked: &DedupSet) -> (r: Vec<u64>)
    requires
        marked.wf(),
    ensures
        r@.no_duplicates(),
        r@.to_set() == candidate_set(top@, marked@),
{
    let n: usize = if top.len() < TOP_COUNT {
        top.len()
    } else {
        TOP_COUNT
    };
    let mut fresh = DedupSet::new();
    let mut i: usize = 0;
    while i < n
        invariant
            0 <= i <= n,
            n <= top@.len(),
            top_window(top@) == top@.take(n as int),
            marked.wf(),
            fresh.wf(),
            fresh@ == top@.take(i as int).to_set().difference(marked@),
        decreases n - i,
    {
        let id = top[i];
        if !marked.contains(id) {
            fresh.insert(id);
        }
        proof {
            assert(top@.take(i + 1) =~= top@.take(i as int).push(id));
            lemma_push_to_set(top@.take(i as int), id);
            assert(fresh@ =~= top@.take(i + 1).to_set().difference(marked@));
        }
        i = i + 1;
    }
    fresh.to_ids()
}

/// The state of the lookups of one run, as a model.
pub struct ResolutionState {
    /// Candidates not yet requested.
    pub pending: Seq<u64>,
    /// Candidates requested and not yet answered.
    pub in_flight: Seq<u64>,
    /// Candidates whose lookup failed; they stay unhandled.
    pub failed: Seq<u64>,
    /// Items resolved so far, in the order their answers came.
    pub items: Seq<HNItem>,
    /// The handled set that the candidates were drawn against.
    pub start_marked: Set<u64>,
}

/// Hands out the lookups of one run, never more than `MAX_IN_FLIGHT` at
/// once, and gathers their answers.
pub struct Resolution {
    pending: Vec<u64>,
    in_flight: Vec<u64>,
    failed: Vec<u64>,
    items: Vec<HNItem>,
    start_marked: Ghost<Set<u64>>,
}

impl View for Resolution {
    type V = ResolutionState;

    closed spec fn view(&self) -> ResolutionState {
        ResolutionState {
            pending: self.pending@,
            in_flight: self.in_flight@,
            failed: self.failed@,
            items: self.items@,
            start_marked: self.start_marked@,
        }
    }
}

impl ResolutionState {
    /// At most `MAX_IN_FLIGHT` lookups outstanding; every candidate in one
    /// stage only, and none of them handled before the run.
    pub open spec fn wf(self) -> bool {
        &&& self.in_flight.len() <= MAX_IN_FLIGHT
        &&& self.pending.no_duplicates()
        &&& self.in_flight.no_duplicates()
        &&& forall|a: int, b: int|
            0 <= a < b < self.items.len() ==> self.items[a].id != self.items[b].id
        &&& forall|x: u64| #[trigger]
            self.pending.contains(x) ==> !self.in_flight.contains(x) && !self.failed.contains(x)
                && !ids_of(self.items).contains(x) && !self.start_marked.contains(x)
        &&& forall|x: u64| #[trigger]
            self.in_flight.contains(x) ==> !self.failed.contains(x) && !ids_of(
                self.items,
            ).contains(x) && !self.start_marked.contains(x)
        &&& forall|x: u64| #[trigger]
            self.failed.contains(x) ==> !ids_of(self.items).contains(x)
                && !self.start_marked.contains(x)
        &&& forall|x: u64| #[trigger]
            ids_of(self.items).contains(x) ==> !self.start_marked.contains(x)
    }
}

/// Adding an item to a batch adds its identifier.
proof fn lemma_ids_of_push(items: Seq<HNItem>, item: HNItem)
    ensures
        ids_of(items.push(item)) == ids_of(items).insert(item.id),
{
    let p = items.push(item);
    assert forall|x: u64| ids_of(p).contains(x) <==> ids_of(items).contains(x) || x == item.id by {
        if ids_of(items).contains(x) {
            let j = choose|j: int| 0 <= j < items.len() && items[j].id == x;
            assert(p[j].id == x);
        }
        if x == item.id {
            assert(p[items.len() as int].id == x);
        }
        if ids_of(p).contains(x) {
            let j = choose|j: int| 0 <= j < p.len() && p[j].id == x;
            if j < items.len() {
                assert(items[j].id == x);
            }
        }
    }
    assert(ids_of(p) =~= ids_of(items).insert(item.id));
}

impl Resolution {
    pub open spec fn wf(&self) -> bool {
        self@.wf()
    }

    /// The lookups of a run over the ranked list `top`, against the handled
    /// set `marked`.
    pub fn start(top: &Vec<u64>, marked: &DedupSet) -> (r: Resolution)
        requires
            marked.wf(),
        ensures
            r.wf(),
            r@.pending.to_set() == candidate_set(top@, marked@),
            r@.in_flight == Seq::<u64>::empty(),
            r@.failed == Seq::<u64>::empty(),
            r@.items == Seq::<HNItem>::empty(),
            r@.start_marked == marked@,
    {
        let pending = candidates(top, marked);
        let r = Resolution {
            pending,
            in_flight: Vec::new(),
            failed: Vec::new(),
            items: Vec::new(),
            start_marked: Ghost(marked@),
        };
        proof {
            assert forall|x: u64| #[trigger] r@.pending.contains(x) implies !r@.start_marked.contains(x) by {
                assert(r@.pending.to_set().contains(x));
            }
            assert(ids_of(r@.items) =~= Set::<u64>::empty());
        }
        r
    }

    /// How many lookups are outstanding.
    pub fn in_flight_count(&self) -> (r: usize)
        ensures
            r == self@.in_flight.len(),
    {
        self.in_flight.len()
    }

    /// Whether every candidate has been requested and answered.
    pub fn is_finished(&self) -> (r: bool)
        ensures
            r == (self@.pending.len() == 0 && self@.in_flight.len() == 0),
    {
        self.pending.len() == 0 && self.in_flight.len() == 0
    }

    /// The next lookup to start, if a candidate is waiting and fewer than
    /// `MAX_IN_FLIGHT` lookups are outstanding.
    pub fn next_request(&mut self) -> (r: Option<u64>)
        requires
            old(self).wf(),
        ensures
            final(self).wf(),
            final(self)@.in_flight.len() <= MAX_IN_FLIGHT,
            final(self)@.failed == old(self)@.failed,
            final(self)@.items == old(self)@.items,
            final(self)@.start_marked == old(self)@.start_marked,
            match r {
                Some(id) => {
                    &&& old(self)@.in_flight.len() < MAX_IN_FLIGHT
                    &&& old(self)@.pending.len() > 0
                    &&& id == old(self)@.pending.last()
                    &&& !old(self)@.start_marked.contains(id)
                    &&& final(self)@.pending == old(self)@.pending.drop_last()
                    &&& final(self)@.in_flight == old(self)@.in_flight.push(id)
                },
                None => {
                    &&& (old(self)@.in_flight.len() >= MAX_IN_FLIGHT || old(self)@.pending.len()
                        == 0)
                    &&& final(self)@ == old(self)@
                },
            },
    {
        if self.in_flight.len() >= MAX_IN_FLIGHT {
            return None;
        }
        match self.pending.pop() {
            None => None,
            Some(id) => {
                proof {
                    let old_p = old(self)@.pending;
                    assert(old_p.contains(id)) by {
                        assert(old_p[old_p.len() - 1] == id);
                    }
                }
                self.in_flight.push(id);
                proof {
                    let o = old(self)@;
                    let f = self@;
                    assert forall|x: u64| #[trigger] f.pending.contains(x) implies o.pending.contains(x)
                        && x != id by {
                        let k = choose|k: int| 0 <= k < f.pending.len() && f.pending[k] == x;
                        assert(o.pending[k] == x);
                        assert(o.pending[o.pending.len() - 1] == id);
                    }
                    assert forall|x: u64| #[trigger] f.in_flight.contains(x) implies o.in_flight.contains(x)
                        || x == id by {
                        let k = choose|k: int| 0 <= k < f.in_flight.len() && f.in_flight[k] == x;
                        if k < o.in_flight.len() {
                            assert(o.in_flight[k] == x);
                        }
                    }
                }
                Some(id)
            },
        }
    }

    /// Records the answer to the lookup of `id`: the item, or `None` when the
    /// lookup failed. An item that carries another identifier than the one
    /// asked for counts as a failed lookup. Returns whether `id` was
    /// outstanding; an answer for anything else changes nothing.
    pub fn complete(&mut self, id: u64, outcome: Option<HNItem>) -> (r: bool)
        requires
            old(self).wf(),
        ensures
            final(self).wf(),
            final(self)@.in_flight.len() <= MAX_IN_FLIGHT,
            r == old(self)@.in_flight.contains(id),
            final(self)@.pending == old(self)@.pending,
            final(self)@.start_marked == old(self)@.start_marked,
            !r ==> final(self)@ == old(self)@,
            r ==> !final(self)@.in_flight.contains(id) && final(self)@.in_flight.len()
                == old(self)@.in_flight.len() - 1 && forall|x: u64|
                x != id ==> (#[trigger] final(self)@.in_flight.contains(x)
                    == old(self)@.in_flight.contains(x)),
            r ==> match outcome {
                Some(item) => if item.id == id {
                    final(self)@.items == old(self)@.items.push(item) && final(self)@.failed
                        == old(self)@.failed
                } else {
                    final(self)@.items == old(self)@.items && final(self)@.failed == old(
                        self,
                    )@.failed.push(id)
                },
                None => final(self)@.items == old(self)@.items && final(self)@.failed == old(
                    self,
                )@.failed.push(id),
            },
    {
        let mut k: usize = 0;
        while k < self.in_flight.len() && self.in_flight[k] != id
            invariant
                0 <= k <= self.in_flight@.len(),
                forall|j: int| 0 <= j < k ==> self.in_flight@[j] != id,
            decreases self.in_flight@.len() - k,
        {
            k = k + 1;
        }
        if k == self.in_flight.len() {
            return false;
        }
        self.in_flight.remove(k);
        let ghost o = old(self)@;
        proof {
            assert(o.in_flight[k as int] == id);
            assert(o.in_flight.contains(id));
            assert forall|x: u64| x != id implies (#[trigger] self@.in_flight.contains(x)
                == o.in_flight.contains(x)) by {
                if self@.in_flight.contains(x) {
                    let j = choose|j: int| 0 <= j < self@.in_flight.len() && self@.in_flight[j] == x;
                    if j < k {
                        assert(o.in_flight[j] == x);
                    } else {
                        assert(o.in_flight[j + 1] == x);
                    }
                }
                if o.in_flight.contains(x) {
                    let j = choose|j: int| 0 <= j < o.in_flight.len() && o.in_flight[j] == x;
                    if j < k {
                        assert(self@.in_flight[j] == x);
                    } else {
                        assert(j != k);
                        assert(self@.in_flight[j - 1] == x);
                    }
                }
            }
            assert(!self@.in_flight.contains(id)) by {
                if self@.in_flight.contains(id) {
                    let j = choose|j: int| 0 <= j < self@.in_flight.len() && self@.in_flight[j] == id;
                    if j < k {
                        assert(o.in_flight[j] == id);
                    } else {
                        assert(o.in_flight[j + 1] == id);
                    }
                }
            }
        }
        let resolved = match &outcome {
            Some(item) => item.id == id,
            None => false,
        };
        if resolved {
            match outcome {
                Some(item) => {
                    proof {
                        lemma_ids_of_push(o.items, item);
                        assert forall|a: int| 0 <= a < o.items.len() implies o.items[a].id
                            != item.id by {
                            if o.items[a].id == item.id {
                                assert(ids_of(o.items).contains(item.id));
                            }
                        }
                    }
                    self.items.push(item);
                },
                None => {},
            }
        } else {
            self.failed.push(id);
            proof {
                assert forall|x: u64| #[trigger] self@.failed.contains(x) implies o.failed.contains(x)
                    || x == id by {
                    let j = choose|j: int| 0 <= j < self@.failed.len() && self@.failed[j] == x;
                    if j < o.failed.len() {
                        assert(o.failed[j] == x);
                    }
                }
            }
        }
        true
    }
    /// Ends the run against the handled set that it started from: every
    /// resolved identifier, notable or not, joins the handled set, and the
    /// notable stories come back in ascending order of identifier. Failed
    /// lookups, and any not answered, stay unhandled.
    pub fn finish(self, marked: &mut DedupSet) -> (r: Vec<HNItem>)
        requires
            self.wf(),
            old(marked).wf(),
            self@.start_marked == old(marked)@,
        ensures
            final(marked).wf(),
            final(marked)@ == marked_after(old(marked)@, self@.items),
            is_selection(r@, self@.items),
    {
        let ghost orig = self@.items;
        let ghost n = orig.len();
        let mut items = self.items;
        let mut sel: Vec<HNItem> = Vec::new();
        while items.len() > 0
            invariant
                items@ == orig.take(items@.len() as int),
                items@.len() <= n,
                n == orig.len(),
                forall|a: int, b: int| 0 <= a < b < n ==> orig[a].id != orig[b].id,
                marked.wf(),
                forall|x: u64|
                    #[trigger] marked@.contains(x) <==> (old(marked)@.contains(x) || exists|j: int|
                        items@.len() <= j < n && orig[j].id == x),
                strictly_ascending(sel@),
                forall|k: int|
                    0 <= k < sel@.len() ==> exists|j: int|
                        items@.len() <= j < n && orig[j] == #[trigger] sel@[k],
                forall|k: int| 0 <= k < sel@.len() ==> #[trigger] sel@[k].notable_story(),
                forall|j: int|
                    items@.len() <= j < n && #[trigger] orig[j].notable_story() ==> sel@.contains(orig[j]),
            decreases items@.len(),
        {
            let ghost len = items@.len();
            let item = match items.pop() {
                Some(item) => item,
                None => {
                    return sel;
                },
            };
            proof {
                assert(item == orig[len - 1]);
                assert(items@ =~= orig.take(len - 1));
            }
            marked.insert(item.id);
            proof {
                assert forall|x: u64|
                    #[trigger] marked@.contains(x) <==> (old(marked)@.contains(x) || exists|j: int|
                        len - 1 <= j < n && orig[j].id == x) by {
                    if x == item.id {
                        assert(orig[len - 1].id == x);
                    }
                    if exists|j: int| len - 1 <= j < n && orig[j].id == x {
                        let j = choose|j: int| len - 1 <= j < n && orig[j].id == x;
                        if j != len - 1 {
                            assert(len <= j < n && orig[j].id == x);
                        }
                    }
                }
            }
            if item.is_notable_story() {
                let mut pos: usize = 0;
                while pos < sel.len() && sel[pos].id < item.id
                    invariant
                        0 <= pos <= sel@.len(),
                        forall|k: int| 0 <= k < pos ==> sel@[k].id < item.id,
                    decreases sel@.len() - pos,
                {
                    pos = pos + 1;
                }
                let ghost before = sel@;
                proof {
                    assert forall|k: int| 0 <= k < before.len() implies before[k].id != item.id by {
                        let j = choose|j: int| len <= j < n && orig[j] == before[k];
                        assert(orig[j].id != orig[len - 1].id);
                    }
                    assert forall|k: int| pos <= k < before.len() implies before[k].id > item.id by {
                        assert(before[pos as int].id >= item.id);
                        assert(before[pos as int].id != item.id);
                    }
                }
                sel.insert(pos, item);
                proof {
                    assert forall|k: int| 0 <= k < sel@.len() implies exists|j: int|
                        len - 1 <= j < n && orig[j] == #[trigger] sel@[k] by {
                        if k < pos {
                            assert(sel@[k] == before[k]);
                        } else if k == pos {
                            assert(orig[len - 1] == sel@[k]);
                        } else {
                            assert(sel@[k] == before[k - 1]);
                        }
                    }
                    assert forall|j: int|
                        len - 1 <= j < n && #[trigger] orig[j].notable_story() implies sel@.contains(
                        orig[j],
                    ) by {
                        if j == len - 1 {
                            assert(sel@[pos as int] == orig[j]);
                        } else {
                            let k = choose|k: int| 0 <= k < before.len() && before[k] == orig[j];
                            if k < pos {
                                assert(sel@[k] == orig[j]);
                            } else {
                                assert(sel@[k + 1] == orig[j]);
                            }
                        }
                    }
                }
            } else {
                proof {
                    assert forall|k: int| 0 <= k < sel@.len() implies exists|j: int|
                        len - 1 <= j < n && orig[j] == #[trigger] sel@[k] by {
                        let j = choose|j: int| len <= j < n && orig[j] == sel@[k];
                        assert(len - 1 <= j < n && orig[j] == sel@[k]);
                    }
                }
            }
        }
        proof {
            assert(marked@ =~= marked_after(old(marked)@, orig)) by {
                assert forall|x: u64| marked@.contains(x) == marked_after(old(marked)@, orig).contains(x) by {
                    if ids_of(orig).contains(x) {
                        let j = choose|j: int| 0 <= j < orig.len() && orig[j].id == x;
                        assert(0 <= j < n && orig[j].id == x);
                    }
                }
            }
            assert forall|k: int| 0 <= k < sel@.len() implies orig.contains(#[trigger] sel@[k]) by {
                let j = choose|j: int| items@.len() <= j < n && orig[j] == sel@[k];
                assert(orig[j] == sel@[k]);
            }
        }
        sel
    }
}

/// The handled set after a sequence of runs, each given by the items that
/// it resolved.
pub open spec fn marked_after_runs(marked: Set<u64>, runs: Seq<Seq<HNItem>>) -> Set<u64>
    decreases runs.len(),
{
    if runs.len() == 0 {
        marked
    } else {
        marked_after(marked_after_runs(marked, runs.drop_last()), runs.last())
    }
}

/// An identifier once handled stays handled, however many runs follow.
pub proof fn lemma_marked_never_shrinks(marked: Set<u64>, runs: Seq<Seq<HNItem>>, i: int, j: int)
    requires
        0 <= i <= j <= runs.len(),
    ensures
        marked_after_runs(marked, runs.take(i)).subset_of(marked_after_runs(marked, runs.take(j))),
    decreases j - i,
{
    if i < j {
        lemma_marked_never_shrinks(marked, runs, i, j - 1);
        assert(runs.take(j).drop_last() =~= runs.take(j - 1));
    }
}

/// Once a run has resolved every candidate, a run over the same ranked list
/// finds nothing left to look up.
pub proof fn lemma_repeat_run_has_no_candidates(
    top: Seq<u64>,
    marked: Set<u64>,
    items: Seq<HNItem>,
)
    requires
        candidate_set(top, marked).subset_of(ids_of(items)),
    ensures
        candidate_set(top, marked_after(marked, items)) == Set::<u64>::empty(),
{
    assert(candidate_set(top, marked_after(marked, items)) =~= Set::<u64>::empty());
}

/// A failed lookup neither keeps a notable story of the same run from being
/// notified nor gets its identifier handled, so it is tried again next run.
pub proof fn lemma_failed_lookup_isolated(
    run: ResolutionState,
    x: u64,
    y: HNItem,
    sel: Seq<HNItem>,
)
    requires
        run.wf(),
        run.failed.contains(x),
        run.items.contains(y),
        y.notable_story(),
        is_selection(sel, run.items),
    ensures
        sel.contains(y),
        !marked_after(run.start_marked, run.items).contains(x),
{
    let j = choose|j: int| 0 <= j < run.items.len() && run.items[j] == y;
    assert(run.items[j].notable_story());
}

} // verus!
