//! A registry of artifact histories, one per artifact identifier.

use vstd::prelude::*;

use crate::binary64::Binary64;
use crate::history::{ArtifactHistory, HistoryState};
use crate::records::{Break, BreakId, Repair};
use crate::trail::{TrailState, break_ids};

verus! {

/// The artifact identifiers of a sequence of histories, in order.
pub open spec fn history_ids(s: Seq<HistoryState>) -> Seq<Seq<char>> {
    s.map_values(|h: HistoryState| h.artifact_id)
}

/// The states of a sequence of histories.
pub open spec fn history_views(s: Seq<ArtifactHistory>) -> Seq<HistoryState> {
    s.map_values(|h: ArtifactHistory| h@)
}

/// The number of breaks over a sequence of histories.
pub open spec fn sum_history_breaks(s: Seq<HistoryState>) -> nat
    decreases s.len(),
{
    if s.len() == 0 {
        0
    } else {
        sum_history_breaks(s.drop_last()) + s.last().total_breaks()
    }
}

/// The number of repairs over a sequence of histories.
pub open spec fn sum_history_repairs(s: Seq<HistoryState>) -> nat
    decreases s.len(),
{
    if s.len() == 0 {
        0
    } else {
        sum_history_repairs(s.drop_last()) + s.last().total_repairs()
    }
}

/// A prefix of a sequence of histories has no more breaks than the whole.
pub proof fn lemma_sum_history_breaks_prefix(s: Seq<HistoryState>, i: int)
    requires
        0 <= i <= s.len(),
    ensures
        sum_history_breaks(s.take(i)) <= sum_history_breaks(s),
    decreases s.len() - i,
{
    if i < s.len() {
        lemma_sum_history_breaks_prefix(s, i + 1);
        assert(s.take(i + 1).drop_last() =~= s.take(i));
    } else {
        assert(s.take(i) =~= s);
    }
}

/// Over well-formed histories there are never more repairs than breaks.
pub proof fn lemma_sum_history_repairs_bounded(s: Seq<HistoryState>)
    requires
        forall|i: int| 0 <= i < s.len() ==> (#[trigger] s[i]).wf(),
    ensures
        sum_history_repairs(s) <= sum_history_breaks(s),
    decreases s.len(),
{
    if s.len() > 0 {
        let p = s.drop_last();
        assert forall|i: int| 0 <= i < p.len() implies (#[trigger] p[i]).wf() by {
            assert(p[i] == s[i]);
        }
        lemma_sum_history_repairs_bounded(p);
        crate::history::lemma_sum_repairs_bounded(s.last().trails);
    }
}

/// A prefix of a sequence of histories has no more repairs than the whole.
pub proof fn lemma_sum_history_repairs_prefix(s: Seq<HistoryState>, i: int)
    requires
        0 <= i <= s.len(),
    ensures
        sum_history_repairs(s.take(i)) <= sum_history_repairs(s),
    decreases s.len() - i,
{
    if i < s.len() {
        lemma_sum_history_repairs_prefix(s, i + 1);
        assert(s.take(i + 1).drop_last() =~= s.take(i));
    } else {
        assert(s.take(i) =~= s);
    }
}

/// The mathematical state of a registry: its histories in registration order.
pub struct RegistryState {
    pub histories: Seq<HistoryState>,
}

impl RegistryState {
    /// The number of breaks over all artifacts.
    pub open spec fn total_breaks(self) -> nat {
        sum_history_breaks(self.histories)
    }

    /// The number of repairs over all artifacts.
    pub open spec fn total_repairs(self) -> nat {
        sum_history_repairs(self.histories)
    }

    /// The registry with no artifact.
    pub open spec fn empty() -> RegistryState {
        RegistryState { histories: Seq::empty() }
    }

    /// Artifact identifiers are unique and every history keeps its invariant.
    pub open spec fn wf(self) -> bool {
        &&& history_ids(self.histories).no_duplicates()
        &&& forall|i: int| 0 <= i < self.histories.len() ==> (#[trigger] self.histories[i]).wf()
    }

    pub open spec fn registered(self, id: Seq<char>) -> bool {
        history_ids(self.histories).contains(id)
    }

    pub open spec fn index_of(self, id: Seq<char>) -> int {
        history_ids(self.histories).index_of(id)
    }

    /// The history of the artifact `id` (meaningful when `registered(id)`).
    pub open spec fn history_of(self, id: Seq<char>) -> HistoryState {
        self.histories[self.index_of(id)]
    }

    /// The registry after registering `id`: unchanged when it is registered,
    /// otherwise with a fresh history for it at the end.
    pub open spec fn registered_with(self, id: Seq<char>) -> RegistryState {
        if self.registered(id) {
            self
        } else {
            RegistryState {
                histories: self.histories.push(
                    HistoryState { artifact_id: id, trails: Seq::empty(), iteration: 0 },
                ),
            }
        }
    }

    /// The registry with the history of `id` replaced by `h`.
    pub open spec fn with_history(self, id: Seq<char>, h: HistoryState) -> RegistryState {
        RegistryState { histories: self.histories.update(self.index_of(id), h) }
    }

    /// The registry after recording `brk` for the artifact `id`: the artifact
    /// starts a new iteration whose trail holds just that break.
    pub open spec fn with_break(self, id: Seq<char>, brk: Break) -> RegistryState {
        let h = self.history_of(id);
        self.with_history(id, h.with_new_trail(TrailState::empty().recorded(brk)))
    }

    /// Whether the break `break_id` can be repaired on the current trail of `id`.
    pub open spec fn can_repair(self, id: Seq<char>, break_id: Seq<char>) -> bool {
        &&& self.registered(id)
        &&& self.history_of(id).trails.len() > 0
        &&& self.history_of(id).trails.last().can_repair(break_id)
    }

    /// The registry after adding the repair `r` to the current trail of `id`.
    pub open spec fn with_repair(self, id: Seq<char>, r: Repair) -> RegistryState {
        let h = self.history_of(id);
        self.with_history(id, h.with_current_trail(h.trails.last().with_repair(r)))
    }
}

/// A global registry tracking break/repair histories for many artifacts.
#[derive(Debug, Clone)]
pub struct KintsugiRegistry {
    histories: Vec<ArtifactHistory>,
}

impl View for KintsugiRegistry {
    type V = RegistryState;

    closed spec fn view(&self) -> RegistryState {
        RegistryState { histories: history_views(self.histories@) }
    }
}

impl KintsugiRegistry {
    /// The registry's invariant (see `RegistryState::wf`).
    pub open spec fn wf(&self) -> bool {
        self@.wf()
    }

    /// Create an empty registry.
    pub fn new() -> (r: KintsugiRegistry)
        ensures
            r@ == RegistryState::empty(),
            r.wf(),
    {
        let r = KintsugiRegistry { histories: Vec::new() };
        assert(r@.histories =~= Seq::<HistoryState>::empty());
        assert(history_ids(r@.histories) =~= Seq::<Seq<char>>::empty());
        r
    }

    /// The histories, in registration order.
    pub fn histories(&self) -> (r: &Vec<ArtifactHistory>)
        ensures
            history_views(r@) == self@.histories,
    {
        &self.histories
    }

    /// The number of registered artifacts.
    pub fn len(&self) -> (r: usize)
        ensures
            r == self@.histories.len(),
    {
        self.histories.len()
    }

    /// Whether no artifact is registered.
    pub fn is_empty(&self) -> (r: bool)
        ensures
            r == (self@.histories.len() == 0),
    {
        self.histories.len() == 0
    }

    fn position(&self, artifact_id: &String) -> (r: Option<usize>)
        requires
            self.wf(),
        ensures
            match r {
                Some(i) => {
                    &&& self@.registered(artifact_id@)
                    &&& i == self@.index_of(artifact_id@)
                    &&& i < self@.histories.len()
                },
                None => !self@.registered(artifact_id@),
            },
    {
        let mut i: usize = 0;
        while i < self.histories.len()
            invariant
                i <= self.histories@.len(),
                forall|j: int| 0 <= j < i ==> self@.histories[j].artifact_id != artifact_id@,
                self.wf(),
            decreases self.histories@.len() - i,
        {
            if self.histories[i].is_for(artifact_id) {
                let ghost ids = history_ids(self@.histories);
                assert(self@.histories[i as int] == self.histories@[i as int]@);
                assert(ids[i as int] == artifact_id@);
                assert(ids.contains(artifact_id@));
                assert(ids.index_of(artifact_id@) == i);
                return Some(i);
            }
            assert(self@.histories[i as int] == self.histories@[i as int]@);
            i += 1;
        }
        None
    }

    /// Register a new artifact. If already registered, this is a no-op.
    pub fn register(&mut self, artifact_id: &str)
        requires
            old(self).wf(),
        ensures
            final(self).wf(),
            final(self)@ == old(self)@.registered_with(artifact_id@),
    {
        let key = artifact_id.to_owned();
        if self.position(&key).is_none() {
            let ghost before = self.histories@;
            let h = ArtifactHistory::new(artifact_id);
            self.histories.push(h);
            assert(history_views(self.histories@) =~= history_views(before).push(h@));
            assert(history_ids(self@.histories) =~= history_ids(history_views(before)).push(
                artifact_id@,
            ));
        }
    }

    /// Look up an artifact's history.
    pub fn get(&self, artifact_id: &str) -> (r: Option<&ArtifactHistory>)
        requires
            self.wf(),
        ensures
            r is Some <==> self@.registered(artifact_id@),
            r matches Some(h) ==> h@ == self@.history_of(artifact_id@),
    {
        let key = artifact_id.to_owned();
        match self.position(&key) {
            Some(i) => Some(&self.histories[i]),
            None => None,
        }
    }
}


impl KintsugiRegistry {
    /// Record a break for an artifact, in a new iteration of its history.
    ///
    /// Returns `None` (and changes nothing) if the artifact is not registered.
    pub fn record_break(&mut self, artifact_id: &str, brk: Break) -> (r: Option<BreakId>)
        requires
            old(self).wf(),
            old(self)@.registered(artifact_id@) ==> old(self)@.history_of(artifact_id@).iteration
                < u32::MAX,
        ensures
            final(self).wf(),
            r is None <==> !old(self)@.registered(artifact_id@),
            r is None ==> final(self)@ == old(self)@,
            r matches Some(id) ==> {
                &&& id == brk.id
                &&& final(self)@ == old(self)@.with_break(artifact_id@, brk)
            },
    {
        let key = artifact_id.to_owned();
        match self.position(&key) {
            None => None,
            Some(i) => {
                let ghost before = self.histories@;
                assert(self@.histories[i as int] == before[i as int]@);
                let h = &mut self.histories[i];
                let t = h.new_iteration();
                let id = t.record_break(brk);
                proof {
                    crate::trail::law_record_then_lookup(TrailState::empty(), brk);
                }
                assert(history_views(self.histories@) =~= history_views(before).update(
                    i as int,
                    self.histories@[i as int]@,
                ));
                assert(history_ids(self@.histories) =~= history_ids(history_views(before)));
                Some(id)
            },
        }
    }

    /// Repair a break on the current (latest) trail of an artifact.
    ///
    /// Returns `false` (and changes nothing) if the artifact isn't registered,
    /// has no trail, or the break doesn't exist there or is already repaired.
    pub fn repair(
        &mut self,
        artifact_id: &str,
        break_id: &BreakId,
        method: &str,
        gold: Binary64,
        repairer: &str,
        insight: &str,
        before: &str,
        after: &str,
    ) -> (r: bool)
        requires
            old(self).wf(),
        ensures
            final(self).wf(),
            r == old(self)@.can_repair(artifact_id@, break_id@),
            !r ==> final(self)@ == old(self)@,
            r ==> exists|rep: Repair|
                {
                    &&& #[trigger] rep.made_from(
                        break_id@,
                        method@,
                        gold,
                        repairer@,
                        insight@,
                        before@,
                        after@,
                    )
                    &&& final(self)@ == old(self)@.with_repair(artifact_id@, rep)
                },
    {
        let key = artifact_id.to_owned();
        match self.position(&key) {
            None => false,
            Some(i) => {
                let ghost old_views = history_views(self.histories@);
                assert(self@.histories[i as int] == self.histories@[i as int]@);
                let h = &mut self.histories[i];
                match h.current_trail_mut() {
                    None => {
                        assert(history_views(self.histories@) =~= old_views);
                        false
                    },
                    Some(t) => {
                        let res = t.repair(break_id, method, gold, repairer, insight, before, after);
                        let done = res.is_some();
                        if done {
                            let ghost rep = *res.unwrap();
                            assert(history_views(self.histories@) =~= old_views.update(
                                i as int,
                                self.histories@[i as int]@,
                            ));
                            assert(history_ids(self@.histories) =~= history_ids(old_views));
                            assert(rep.made_from(
                                break_id@,
                                method@,
                                gold,
                                repairer@,
                                insight@,
                                before@,
                                after@,
                            ));
                        } else {
                            assert(self.histories@[i as int]@.trails =~= old_views[i as int].trails);
                            assert(history_views(self.histories@) =~= old_views);
                        }
                        assert forall|j: int| 0 <= j < self@.histories.len() implies (
                        #[trigger] self@.histories[j]).wf() by {
                            if j != i {
                                assert(self@.histories[j] == old_views[j]);
                            }
                        }
                        done
                    },
                }
            },
        }
    }
}


impl KintsugiRegistry {
    /// Total number of breaks across all artifacts.
    pub fn total_breaks(&self) -> (r: usize)
        requires
            self@.total_breaks() <= usize::MAX,
        ensures
            r == self@.total_breaks(),
    {
        let n = self.histories.len();
        let mut total: usize = 0;
        let mut i: usize = 0;
        while i < n
            invariant
                n == self.histories@.len(),
                i <= n,
                total == sum_history_breaks(self@.histories.take(i as int)),
                self@.total_breaks() <= usize::MAX,
            decreases n - i,
        {
            assert(self@.histories.take(i + 1).drop_last() =~= self@.histories.take(i as int));
            proof {
                lemma_sum_history_breaks_prefix(self@.histories, i + 1);
            }
            assert(self@.histories[i as int] == self.histories@[i as int]@);
            total = total + self.histories[i].total_breaks();
            i += 1;
        }
        assert(self@.histories.take(n as int) =~= self@.histories);
        total
    }

    /// Total number of repairs across all artifacts.
    pub fn total_repairs(&self) -> (r: usize)
        requires
            self.wf(),
            self@.total_breaks() <= usize::MAX,
        ensures
            r == self@.total_repairs(),
    {
        let n = self.histories.len();
        let mut total: usize = 0;
        let mut i: usize = 0;
        proof {
            lemma_sum_history_repairs_bounded(self@.histories);
        }
        while i < n
            invariant
                n == self.histories@.len(),
                i <= n,
                total == sum_history_repairs(self@.histories.take(i as int)),
                self.wf(),
                self@.total_breaks() <= usize::MAX,
                self@.total_repairs() <= usize::MAX,
            decreases n - i,
        {
            assert(self@.histories.take(i + 1).drop_last() =~= self@.histories.take(i as int));
            proof {
                lemma_sum_history_repairs_prefix(self@.histories, i + 1);
                lemma_sum_history_breaks_prefix(self@.histories, i + 1);
                let p = self@.histories.take(i + 1);
                assert(sum_history_breaks(p) == sum_history_breaks(p.drop_last()) + p.last().total_breaks());
            }
            assert(self@.histories[i as int] == self.histories@[i as int]@);
            total = total + self.histories[i].total_repairs();
            i += 1;
        }
        assert(self@.histories.take(n as int) =~= self@.histories);
        total
    }
}


impl KintsugiRegistry {
    /// A registry of the given histories, or `None` when two of them belong
    /// to the same artifact.
    pub fn from_histories(histories: Vec<ArtifactHistory>) -> (r: Option<KintsugiRegistry>)
        requires
            forall|i: int| 0 <= i < histories@.len() ==> (#[trigger] histories@[i]).wf(),
        ensures
            r is Some <==> history_ids(history_views(histories@)).no_duplicates(),
            r matches Some(reg) ==> reg@ == (RegistryState { histories: history_views(histories@) }),
            r matches Some(reg) ==> reg.wf(),
    {
        let ghost ids = history_ids(history_views(histories@));
        let n = histories.len();
        let mut i: usize = 0;
        while i < n
            invariant
                n == histories@.len(),
                i <= n,
                ids == history_ids(history_views(histories@)),
                forall|a: int, b: int| 0 <= a < i && 0 <= b < i && a != b ==> ids[a] != ids[b],
            decreases n - i,
        {
            let mut j: usize = 0;
            while j < i
                invariant
                    n == histories@.len(),
                    j <= i < n,
                    ids == history_ids(history_views(histories@)),
                    forall|b: int| 0 <= b < j ==> ids[b] != ids[i as int],
                decreases i - j,
            {
                let key = histories[i].artifact_id().to_owned();
                assert(ids[j as int] == histories@[j as int]@.artifact_id);
                assert(ids[i as int] == histories@[i as int]@.artifact_id);
                if histories[j].is_for(&key) {
                    return None;
                }
                j += 1;
            }
            i += 1;
        }
        let reg = KintsugiRegistry { histories };
        assert forall|k: int| 0 <= k < reg@.histories.len() implies (#[trigger] reg@.histories[k]).wf() by {
            assert(reg@.histories[k] == reg.histories@[k]@);
        }
        Some(reg)
    }
}

impl Default for KintsugiRegistry {
    fn default() -> (r: KintsugiRegistry)
        ensures
            r@ == RegistryState::empty(),
            r.wf(),
    {
        KintsugiRegistry::new()
    }
}

/// Registering is idempotent: registering an artifact twice is the same as
/// registering it once; afterwards it is registered and the registry keeps
/// its invariant.
pub proof fn law_register_idempotent(s: RegistryState, id: Seq<char>)
    requires
        s.wf(),
    ensures
        s.registered_with(id).wf(),
        s.registered_with(id).registered(id),
        s.registered_with(id).registered_with(id) == s.registered_with(id),
        s.registered(id) ==> s.registered_with(id) == s,
{
    if !s.registered(id) {
        let u = s.registered_with(id);
        let fresh = HistoryState { artifact_id: id, trails: Seq::empty(), iteration: 0 };
        assert(history_ids(u.histories) =~= history_ids(s.histories).push(id));
        assert(history_ids(u.histories)[s.histories.len() as int] == id);
        assert(fresh.wf());
        assert forall|i: int| 0 <= i < u.histories.len() implies (#[trigger] u.histories[i]).wf() by {
            if i < s.histories.len() {
                assert(u.histories[i] == s.histories[i]);
            }
        }
    }
}

/// A break recorded for a registered artifact is found, unrepaired, on the
/// artifact's current trail, and can then be repaired there; the other
/// artifacts' histories are unchanged.
pub proof fn law_record_then_repairable(s: RegistryState, id: Seq<char>, brk: Break)
    requires
        s.wf(),
        s.registered(id),
    ensures
        s.with_break(id, brk).registered(id),
        s.with_break(id, brk).history_of(id).trails.last().has_break(brk.id@),
        s.with_break(id, brk).history_of(id).trails.last().break_of(brk.id@) == brk,
        s.with_break(id, brk).can_repair(id, brk.id@),
        forall|k: Seq<char>|
            k != id && #[trigger] s.registered(k) ==> s.with_break(id, brk).registered(k)
                && s.with_break(id, brk).history_of(k) == s.history_of(k),
{
    let u = s.with_break(id, brk);
    let i = s.index_of(id);
    crate::trail::law_record_then_lookup(TrailState::empty(), brk);
    assert(TrailState::empty().wf()) by {
        assert(break_ids(Seq::<Break>::empty()) =~= Seq::<Seq<char>>::empty());
        assert(crate::trail::repair_ids(Seq::<Repair>::empty()) =~= Seq::<Seq<char>>::empty());
    }
    let ids = history_ids(s.histories);
    assert(history_ids(u.histories) =~= ids);
    assert(u.index_of(id) == i);
    assert(!TrailState::empty().recorded(brk).has_repair(brk.id@));
    assert forall|k: Seq<char>|
        k != id && #[trigger] s.registered(k) implies u.registered(k) && u.history_of(k)
        == s.history_of(k) by {
        assert(s.index_of(k) != i);
        assert(u.index_of(k) == s.index_of(k));
    }
}

/// A break is repaired at most once on a registry: after a repair succeeds,
/// repairing the same break on the same artifact again fails.
pub proof fn law_registry_repair_at_most_once(s: RegistryState, id: Seq<char>, r: Repair)
    requires
        s.wf(),
        s.can_repair(id, r.break_id@),
    ensures
        !s.with_repair(id, r).can_repair(id, r.break_id@),
{
    let u = s.with_repair(id, r);
    let i = s.index_of(id);
    let h = s.history_of(id);
    assert(history_ids(u.histories) =~= history_ids(s.histories));
    assert(u.index_of(id) == i);
    assert(h.trails[h.trails.len() - 1].wf());
    crate::trail::law_repair_at_most_once(h.trails.last(), r);
}


/// Replacing one history in a sequence trades its counts for the new one's.
proof fn lemma_sums_after_update(s: Seq<HistoryState>, i: int, h: HistoryState)
    requires
        0 <= i < s.len(),
    ensures
        sum_history_breaks(s.update(i, h)) + s[i].total_breaks() == sum_history_breaks(s)
            + h.total_breaks(),
        sum_history_repairs(s.update(i, h)) + s[i].total_repairs() == sum_history_repairs(s)
            + h.total_repairs(),
    decreases s.len(),
{
    let u = s.update(i, h);
    if i == s.len() - 1 {
        assert(u.drop_last() =~= s.drop_last());
    } else {
        lemma_sums_after_update(s.drop_last(), i, h);
        assert(u.drop_last() =~= s.drop_last().update(i, h));
    }
}

/// The registry's totals count every artifact's breaks and repairs: an empty
/// registry has none, adding a history adds exactly its counts, registering
/// changes no total, and replacing one artifact's history trades its counts
/// for the new history's, leaving every other artifact's counts in the total.
pub proof fn law_registry_totals_add_up(s: RegistryState, id: Seq<char>, h: HistoryState)
    ensures
        RegistryState::empty().total_breaks() == 0,
        RegistryState::empty().total_repairs() == 0,
        (RegistryState { histories: s.histories.push(h) }).total_breaks() == s.total_breaks()
            + h.total_breaks(),
        (RegistryState { histories: s.histories.push(h) }).total_repairs() == s.total_repairs()
            + h.total_repairs(),
        s.registered_with(id).total_breaks() == s.total_breaks(),
        s.registered_with(id).total_repairs() == s.total_repairs(),
        s.registered(id) ==> s.with_history(id, h).total_breaks() + s.history_of(id).total_breaks()
            == s.total_breaks() + h.total_breaks(),
        s.registered(id) ==> s.with_history(id, h).total_repairs() + s.history_of(id).total_repairs()
            == s.total_repairs() + h.total_repairs(),
{
    assert(s.histories.push(h).drop_last() =~= s.histories);
    if !s.registered(id) {
        let fresh = HistoryState { artifact_id: id, trails: Seq::empty(), iteration: 0 };
        assert(s.histories.push(fresh).drop_last() =~= s.histories);
        crate::history::law_totals_add_up_over_trails(fresh, TrailState::empty());
    } else {
        let i = s.index_of(id);
        lemma_sums_after_update(s.histories, i, h);
    }
}

} // verus!
