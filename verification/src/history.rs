//! The break/repair history of one artifact: one golden trail per iteration.

use vstd::prelude::*;

use crate::trail::{GoldenTrail, TrailState, law_repairs_bounded_by_breaks};

verus! {

/// The number of breaks over a sequence of trails.
pub open spec fn sum_breaks(trails: Seq<TrailState>) -> nat
    decreases trails.len(),
{
    if trails.len() == 0 {
        0
    } else {
        sum_breaks(trails.drop_last()) + trails.last().breaks.len()
    }
}

/// The number of repairs over a sequence of trails.
pub open spec fn sum_repairs(trails: Seq<TrailState>) -> nat
    decreases trails.len(),
{
    if trails.len() == 0 {
        0
    } else {
        sum_repairs(trails.drop_last()) + trails.last().repairs.len()
    }
}

/// The states of a sequence of trails.
pub open spec fn trail_views(s: Seq<GoldenTrail>) -> Seq<TrailState> {
    s.map_values(|t: GoldenTrail| t@)
}

/// The mathematical state of an artifact's history.
pub struct HistoryState {
    pub artifact_id: Seq<char>,
    pub trails: Seq<TrailState>,
    pub iteration: u32,
}

impl HistoryState {
    /// Every trail keeps its invariant.
    pub open spec fn wf(self) -> bool {
        forall|i: int| 0 <= i < self.trails.len() ==> (#[trigger] self.trails[i]).wf()
    }

    pub open spec fn total_breaks(self) -> nat {
        sum_breaks(self.trails)
    }

    pub open spec fn total_repairs(self) -> nat {
        sum_repairs(self.trails)
    }

    /// The history after a new iteration whose trail is `t`.
    pub open spec fn with_new_trail(self, t: TrailState) -> HistoryState {
        HistoryState {
            artifact_id: self.artifact_id,
            trails: self.trails.push(t),
            iteration: (self.iteration + 1) as u32,
        }
    }

    /// The history with its current (last) trail replaced by `t`.
    pub open spec fn with_current_trail(self, t: TrailState) -> HistoryState {
        HistoryState {
            artifact_id: self.artifact_id,
            trails: self.trails.update(self.trails.len() - 1, t),
            iteration: self.iteration,
        }
    }
}

/// The iteration number counts the trails: a fresh history has none, a new
/// iteration adds one trail, and changing the current trail adds none.
pub proof fn law_iteration_counts_trails(h: HistoryState, t: TrailState)
    requires
        h.iteration == h.trails.len(),
    ensures
        h.iteration < u32::MAX ==> h.with_new_trail(t).iteration == h.with_new_trail(t).trails.len(),
        h.trails.len() > 0 ==> h.with_current_trail(t).iteration == h.with_current_trail(
            t,
        ).trails.len(),
{
}

/// The full break/repair history of a single artifact across iterations.
#[derive(Debug, Clone)]
pub struct ArtifactHistory {
    artifact_id: String,
    trails: Vec<GoldenTrail>,
    iteration: u32,
}

impl View for ArtifactHistory {
    type V = HistoryState;

    closed spec fn view(&self) -> HistoryState {
        HistoryState {
            artifact_id: self.artifact_id@,
            trails: trail_views(self.trails@),
            iteration: self.iteration,
        }
    }
}

/// A prefix of a sequence of trails has no more breaks than the whole.
pub proof fn lemma_sum_breaks_prefix(trails: Seq<TrailState>, i: int)
    requires
        0 <= i <= trails.len(),
    ensures
        sum_breaks(trails.take(i)) <= sum_breaks(trails),
    decreases trails.len() - i,
{
    if i < trails.len() {
        lemma_sum_breaks_prefix(trails, i + 1);
        assert(trails.take(i + 1).drop_last() =~= trails.take(i));
    } else {
        assert(trails.take(i) =~= trails);
    }
}

/// Over well-formed trails there are never more repairs than breaks.
pub proof fn lemma_sum_repairs_bounded(trails: Seq<TrailState>)
    requires
        forall|i: int| 0 <= i < trails.len() ==> (#[trigger] trails[i]).wf(),
    ensures
        sum_repairs(trails) <= sum_breaks(trails),
    decreases trails.len(),
{
    if trails.len() > 0 {
        let p = trails.drop_last();
        assert forall|i: int| 0 <= i < p.len() implies (#[trigger] p[i]).wf() by {
            assert(p[i] == trails[i]);
        }
        lemma_sum_repairs_bounded(p);
        law_repairs_bounded_by_breaks(trails.last());
    }
}

impl ArtifactHistory {
    /// The history's invariant (see `HistoryState::wf`).
    pub open spec fn wf(&self) -> bool {
        self@.wf()
    }

    /// Create a new history for the given artifact.
    pub fn new(artifact_id: &str) -> (h: ArtifactHistory)
        ensures
            h@ == (HistoryState { artifact_id: artifact_id@, trails: Seq::empty(), iteration: 0 }),
            h.wf(),
    {
        let h = ArtifactHistory { artifact_id: artifact_id.to_owned(), trails: Vec::new(), iteration: 0 };
        assert(h@.trails =~= Seq::<TrailState>::empty());
        h
    }

    /// The artifact's identifier.
    pub fn artifact_id(&self) -> (r: &str)
        ensures
            r@ == self@.artifact_id,
    {
        self.artifact_id.as_str()
    }

    /// The current iteration number.
    pub fn iteration(&self) -> (r: u32)
        ensures
            r == self@.iteration,
    {
        self.iteration
    }

    /// The trails, one per iteration, oldest first.
    pub fn trails(&self) -> (r: &Vec<GoldenTrail>)
        ensures
            trail_views(r@) == self@.trails,
    {
        &self.trails
    }

    /// Start a new iteration, adding a fresh `GoldenTrail` and returning it.
    pub fn new_iteration(&mut self) -> (t: &mut GoldenTrail)
        requires
            old(self).wf(),
            old(self)@.iteration < u32::MAX,
        ensures
            t@ == TrailState::empty(),
            t.wf(),
            final(self)@ == old(self)@.with_new_trail(final(t)@),
            final(t).wf() ==> final(self).wf(),
    {
        self.iteration = self.iteration + 1;
        let ghost before = self.trails@;
        self.trails.push(GoldenTrail::new());
        let n = self.trails.len();
        assert forall|y: GoldenTrail|
            #[trigger] trail_views(before.push(self.trails@[n - 1]).update(n - 1, y))
                =~= trail_views(before).push(y@) by {}
        assert(self.trails@ == before.push(self.trails@[n - 1]));
        assert forall|y: GoldenTrail| #[trigger] y.wf() implies (HistoryState {
            artifact_id: self@.artifact_id,
            trails: trail_views(before).push(y@),
            iteration: self.iteration,
        }).wf() by {
            assert forall|i: int| 0 <= i < before.len() + 1 implies (#[trigger] trail_views(
                before,
            ).push(y@)[i]).wf() by {
                if i < before.len() {
                    assert(trail_views(before)[i] == old(self)@.trails[i]);
                }
            }
        }
        &mut self.trails[n - 1]
    }
}


impl ArtifactHistory {
    /// The most recent trail, if any.
    pub fn current_trail(&self) -> (r: Option<&GoldenTrail>)
        ensures
            r is None <==> self@.trails.len() == 0,
            r matches Some(t) ==> t@ == self@.trails.last(),
    {
        let n = self.trails.len();
        if n == 0 {
            None
        } else {
            Some(&self.trails[n - 1])
        }
    }

    /// The most recent trail, mutable.
    pub fn current_trail_mut(&mut self) -> (r: Option<&mut GoldenTrail>)
        requires
            old(self).wf(),
        ensures
            r is None <==> old(self)@.trails.len() == 0,
            r is None ==> final(self)@ == old(self)@,
            r matches Some(t) ==> {
                &&& t@ == old(self)@.trails.last()
                &&& t.wf()
                &&& final(self)@ == old(self)@.with_current_trail(final(t)@)
                &&& final(t).wf() ==> final(self).wf()
            },
    {
        let n = self.trails.len();
        if n == 0 {
            None
        } else {
            let ghost before = self.trails@;
            assert forall|y: GoldenTrail|
                #[trigger] trail_views(before.update(n - 1, y)) =~= trail_views(before).update(
                    n - 1,
                    y@,
                ) by {}
            assert(self.trails@[n - 1]@ == self@.trails[n - 1]);
            Some(&mut self.trails[n - 1])
        }
    }

    /// Total number of breaks across all iterations.
    pub fn total_breaks(&self) -> (r: usize)
        requires
            self@.total_breaks() <= usize::MAX,
        ensures
            r == self@.total_breaks(),
    {
        let n = self.trails.len();
        let mut total: usize = 0;
        let mut i: usize = 0;
        while i < n
            invariant
                n == self.trails@.len(),
                i <= n,
                total == sum_breaks(self@.trails.take(i as int)),
                self@.total_breaks() <= usize::MAX,
            decreases n - i,
        {
            assert(self@.trails.take(i + 1).drop_last() =~= self@.trails.take(i as int));
            proof {
                lemma_sum_breaks_prefix(self@.trails, i + 1);
            }
            assert(self@.trails[i as int] == self.trails@[i as int]@);
            total = total + self.trails[i].breaks().len();
            i += 1;
        }
        assert(self@.trails.take(n as int) =~= self@.trails);
        total
    }

    /// Total number of repairs across all iterations.
    pub fn total_repairs(&self) -> (r: usize)
        requires
            self.wf(),
            self@.total_breaks() <= usize::MAX,
        ensures
            r == self@.total_repairs(),
    {
        let n = self.trails.len();
        let mut total: usize = 0;
        let mut i: usize = 0;
        proof {
            lemma_sum_repairs_bounded(self@.trails);
        }
        while i < n
            invariant
                n == self.trails@.len(),
                i <= n,
                total == sum_repairs(self@.trails.take(i as int)),
                self.wf(),
                sum_repairs(self@.trails) <= usize::MAX,
            decreases n - i,
        {
            assert(self@.trails.take(i + 1).drop_last() =~= self@.trails.take(i as int));
            proof {
                lemma_sum_repairs_prefix(self@.trails, i + 1);
            }
            assert(self@.trails[i as int] == self.trails@[i as int]@);
            total = total + self.trails[i].repairs().len();
            i += 1;
        }
        assert(self@.trails.take(n as int) =~= self@.trails);
        total
    }
}

/// A prefix of a sequence of trails has no more repairs than the whole.
pub proof fn lemma_sum_repairs_prefix(trails: Seq<TrailState>, i: int)
    requires
        0 <= i <= trails.len(),
    ensures
        sum_repairs(trails.take(i)) <= sum_repairs(trails),
    decreases trails.len() - i,
{
    if i < trails.len() {
        lemma_sum_repairs_prefix(trails, i + 1);
        assert(trails.take(i + 1).drop_last() =~= trails.take(i));
    } else {
        assert(trails.take(i) =~= trails);
    }
}


impl ArtifactHistory {
    /// Whether this history belongs to the artifact `artifact_id`.
    pub(crate) fn is_for(&self, artifact_id: &String) -> (r: bool)
        ensures
            r == (self@.artifact_id == artifact_id@),
    {
        self.artifact_id == *artifact_id
    }
}


impl ArtifactHistory {
    /// A history made of the given identifier, trails and iteration number.
    pub fn from_parts(artifact_id: &str, trails: Vec<GoldenTrail>, iteration: u32) -> (h: ArtifactHistory)
        requires
            forall|i: int| 0 <= i < trails@.len() ==> (#[trigger] trails@[i]).wf(),
        ensures
            h@ == (HistoryState {
                artifact_id: artifact_id@,
                trails: trail_views(trails@),
                iteration,
            }),
            h.wf(),
    {
        let h = ArtifactHistory { artifact_id: artifact_id.to_owned(), trails, iteration };
        assert forall|i: int| 0 <= i < h@.trails.len() implies (#[trigger] h@.trails[i]).wf() by {
            assert(h@.trails[i] == trails@[i]@);
        }
        h
    }
}


/// The totals of a history count every trail's breaks and repairs: a history
/// without trails has none, a new iteration adds exactly its trail's breaks
/// and repairs, and replacing the current trail trades its counts for the new
/// trail's.
pub proof fn law_totals_add_up_over_trails(h: HistoryState, t: TrailState)
    ensures
        h.trails.len() == 0 ==> h.total_breaks() == 0 && h.total_repairs() == 0,
        h.with_new_trail(t).total_breaks() == h.total_breaks() + t.breaks.len(),
        h.with_new_trail(t).total_repairs() == h.total_repairs() + t.repairs.len(),
        h.trails.len() > 0 ==> h.with_current_trail(t).total_breaks() + h.trails.last().breaks.len()
            == h.total_breaks() + t.breaks.len(),
        h.trails.len() > 0 ==> h.with_current_trail(t).total_repairs() + h.trails.last().repairs.len()
            == h.total_repairs() + t.repairs.len(),
{
    assert(h.trails.push(t).drop_last() =~= h.trails);
    if h.trails.len() > 0 {
        let n = h.trails.len() - 1;
        assert(h.trails.update(n, t).drop_last() =~= h.trails.drop_last());
    }
}

} // verus!
