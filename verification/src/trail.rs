//! A golden trail: the breaks of one iteration of an artifact and their repairs.
//!
//! Breaks are kept in the order in which they were first recorded and are
//! found again by their identifier; a break recorded again under the same
//! identifier replaces the earlier one in place. Repairs are kept in the order
//! in which they were made, at most one per recorded break.

use vstd::prelude::*;

use crate::binary64::{Binary64, SEVEN_TENTHS_BITS};
use crate::records::{Break, BreakId, BreakType, Repair};

verus! {

/// The identifiers of a sequence of breaks, in order.
pub open spec fn break_ids(s: Seq<Break>) -> Seq<Seq<char>> {
    s.map_values(|b: Break| b.id@)
}

/// The identifiers of the breaks that a sequence of repairs repaired, in order.
pub open spec fn repair_ids(s: Seq<Repair>) -> Seq<Seq<char>> {
    s.map_values(|r: Repair| r.break_id@)
}

/// The values behind a sequence of references.
pub open spec fn deref_seq<T>(s: Seq<&T>) -> Seq<T> {
    s.map_values(|x: &T| *x)
}

impl Repair {
    /// Whether this repair is the one that repairing `break_id` with the given
    /// method, gold, repairer, insight and state snapshots produces: the gold
    /// is clamped to the unit interval and the repair tick is zero.
    pub open spec fn made_from(
        self,
        break_id: Seq<char>,
        method: Seq<char>,
        gold: Binary64,
        repairer: Seq<char>,
        insight: Seq<char>,
        before: Seq<char>,
        after: Seq<char>,
    ) -> bool {
        &&& self.break_id@ == break_id
        &&& self.method@ == method
        &&& self.gold_content == gold.clamped_unit()
        &&& self.repaired_tick == 0
        &&& self.repairer@ == repairer
        &&& self.insight@ == insight
        &&& self.before_state@ == before
        &&& self.after_state@ == after
    }
}

/// What the repair `best_repair` picks between the best so far and the next
/// repair: the next one unless the best so far has strictly more gold.
pub open spec fn better_repair(best: Repair, next: Repair) -> Repair {
    if best.gold_content.greater_than(next.gold_content) {
        best
    } else {
        next
    }
}

/// The repair that a left-to-right maximum search over `s` by gold content ends
/// with (the last of the maximal ones; a NaN compares equal to everything).
pub open spec fn best_repair(s: Seq<Repair>) -> Repair
    decreases s.len(),
{
    if s.len() <= 1 {
        s[0]
    } else {
        better_repair(best_repair(s.drop_last()), s.last())
    }
}

/// The mathematical state of a trail: its breaks in recording order and its
/// repairs in the order in which they were made.
pub struct TrailState {
    pub breaks: Seq<Break>,
    pub repairs: Seq<Repair>,
}

impl TrailState {
    /// The trail with no breaks and no repairs.
    pub open spec fn empty() -> TrailState {
        TrailState { breaks: Seq::empty(), repairs: Seq::empty() }
    }

    /// Identifiers are unique among the breaks and among the repairs, and
    /// every repair belongs to a recorded break.
    pub open spec fn wf(self) -> bool {
        &&& break_ids(self.breaks).no_duplicates()
        &&& repair_ids(self.repairs).no_duplicates()
        &&& forall|i: int|
            0 <= i < self.repairs.len() ==> self.has_break(#[trigger] self.repairs[i].break_id@)
    }

    pub open spec fn has_break(self, id: Seq<char>) -> bool {
        break_ids(self.breaks).contains(id)
    }

    pub open spec fn has_repair(self, id: Seq<char>) -> bool {
        repair_ids(self.repairs).contains(id)
    }

    pub open spec fn break_index(self, id: Seq<char>) -> int {
        break_ids(self.breaks).index_of(id)
    }

    pub open spec fn repair_index(self, id: Seq<char>) -> int {
        repair_ids(self.repairs).index_of(id)
    }

    /// The break recorded under `id` (meaningful when `has_break(id)`).
    pub open spec fn break_of(self, id: Seq<char>) -> Break {
        self.breaks[self.break_index(id)]
    }

    /// The repair of the break `id` (meaningful when `has_repair(id)`).
    pub open spec fn repair_of(self, id: Seq<char>) -> Repair {
        self.repairs[self.repair_index(id)]
    }

    /// The trail after recording `brk`: it replaces the break with the same
    /// identifier in place, or is appended when there is none.
    pub open spec fn recorded(self, brk: Break) -> TrailState {
        TrailState {
            breaks: if self.has_break(brk.id@) {
                self.breaks.update(self.break_index(brk.id@), brk)
            } else {
                self.breaks.push(brk)
            },
            repairs: self.repairs,
        }
    }

    /// A break can be repaired when it is recorded and not yet repaired.
    pub open spec fn can_repair(self, id: Seq<char>) -> bool {
        self.has_break(id) && !self.has_repair(id)
    }

    /// The trail with one more repair.
    pub open spec fn with_repair(self, r: Repair) -> TrailState {
        TrailState { breaks: self.breaks, repairs: self.repairs.push(r) }
    }

    pub open spec fn unrepaired_filter(self) -> spec_fn(Break) -> bool {
        |b: Break| !self.has_repair(b.id@)
    }

    /// The breaks without a repair, in recording order.
    pub open spec fn unrepaired(self) -> Seq<Break> {
        self.breaks.filter(self.unrepaired_filter())
    }

    pub open spec fn golden_filter() -> spec_fn(Repair) -> bool {
        |r: Repair| r.golden()
    }

    /// The golden repairs, in the order they were made.
    pub open spec fn golden_repairs(self) -> Seq<Repair> {
        self.repairs.filter(Self::golden_filter())
    }

    pub open spec fn type_filter(bt: BreakType) -> spec_fn(Break) -> bool {
        |b: Break| b.break_type == bt
    }

    /// The number of recorded breaks of category `bt`.
    pub open spec fn type_count(self, bt: BreakType) -> nat {
        self.breaks.filter(Self::type_filter(bt)).len()
    }
}

/// Counts of breaks per category; a category with no break has no entry.
pub struct BreakFrequency {
    entries: Vec<(BreakType, usize)>,
}

/// The categories of a sequence of frequency entries, in order.
pub open spec fn entry_types(s: Seq<(BreakType, usize)>) -> Seq<BreakType> {
    s.map_values(|e: (BreakType, usize)| e.0)
}

impl BreakFrequency {
    pub closed spec fn entries_view(&self) -> Seq<(BreakType, usize)> {
        self.entries@
    }

    /// The count for `bt`: zero when it has no entry.
    pub open spec fn count(&self, bt: BreakType) -> nat {
        let types = entry_types(self.entries_view());
        if types.contains(bt) {
            self.entries_view()[types.index_of(bt)].1 as nat
        } else {
            0
        }
    }

    /// Each category appears at most once and every entry counts at least one break.
    pub open spec fn wf(&self) -> bool {
        &&& entry_types(self.entries_view()).no_duplicates()
        &&& forall|i: int|
            0 <= i < self.entries_view().len() ==> #[trigger] self.entries_view()[i].1 > 0
    }

    /// The number of categories that have an entry.
    pub open spec fn spec_len(&self) -> nat {
        self.entries_view().len()
    }

    /// The categories with at least one break.
    pub open spec fn categories(&self) -> Set<BreakType> {
        Set::new(|bt: BreakType| self.count(bt) > 0)
    }

    fn position(&self, bt: BreakType) -> (r: Option<usize>)
        requires
            self.wf(),
        ensures
            match r {
                Some(i) => {
                    &&& i < self.entries_view().len()
                    &&& self.entries_view()[i as int].0 == bt
                    &&& entry_types(self.entries_view()).contains(bt)
                    &&& entry_types(self.entries_view()).index_of(bt) == i
                },
                None => !entry_types(self.entries_view()).contains(bt),
            },
    {
        let mut i: usize = 0;
        while i < self.entries.len()
            invariant
                i <= self.entries@.len(),
                forall|j: int| 0 <= j < i ==> self.entries@[j].0 != bt,
                self.wf(),
            decreases self.entries@.len() - i,
        {
            if self.entries[i].0 == bt {
                let ghost types = entry_types(self.entries@);
                assert(types[i as int] == bt);
                assert(types.contains(bt));
                assert(types.index_of(bt) == i);
                return Some(i);
            }
            i += 1;
        }
        None
    }

    /// The count for `bt`, or `None` when no break of that category was counted.
    pub fn get(&self, bt: &BreakType) -> (r: Option<&usize>)
        requires
            self.wf(),
        ensures
            r is Some <==> self.count(*bt) > 0,
            r matches Some(c) ==> *c == self.count(*bt),
    {
        match self.position(*bt) {
            Some(i) => Some(&self.entries[i].1),
            None => None,
        }
    }

    /// The number of categories with at least one break.
    pub fn len(&self) -> (r: usize)
        requires
            self.wf(),
        ensures
            r == self.spec_len(),
            r == self.categories().len(),
    {
        let ghost types = entry_types(self.entries@);
        assert(types.to_set() =~= self.categories()) by {
            assert forall|bt: BreakType| types.to_set().contains(bt) implies self.count(bt) > 0 by {
                let j = types.index_of(bt);
                assert(self.entries@[j].1 > 0);
            }
        }
        proof {
            types.unique_seq_to_set();
        }
        self.entries.len()
    }

    /// Whether no category has a break.
    pub fn is_empty(&self) -> (r: bool)
        ensures
            r == (self.spec_len() == 0),
    {
        self.entries.len() == 0
    }
}

/// A trail of breaks and their repairs for a single logical unit.
#[derive(Debug, Clone)]
pub struct GoldenTrail {
    breaks: Vec<Break>,
    repairs: Vec<Repair>,
}

impl View for GoldenTrail {
    type V = TrailState;

    closed spec fn view(&self) -> TrailState {
        TrailState { breaks: self.breaks@, repairs: self.repairs@ }
    }
}

impl GoldenTrail {
    /// The trail's invariant (see `TrailState::wf`).
    pub open spec fn wf(&self) -> bool {
        self@.wf()
    }

    /// Create an empty trail.
    pub fn new() -> (t: GoldenTrail)
        ensures
            t@ == TrailState::empty(),
            t.wf(),
    {
        let t = GoldenTrail { breaks: Vec::new(), repairs: Vec::new() };
        assert(break_ids(t.breaks@) =~= Seq::empty());
        assert(repair_ids(t.repairs@) =~= Seq::empty());
        t
    }

    /// The recorded breaks, in recording order.
    pub fn breaks(&self) -> (r: &Vec<Break>)
        ensures
            r@ == self@.breaks,
    {
        &self.breaks
    }

    /// The repairs, in the order in which they were made.
    pub fn repairs(&self) -> (r: &Vec<Repair>)
        ensures
            r@ == self@.repairs,
    {
        &self.repairs
    }

    fn break_position(&self, id: &BreakId) -> (r: Option<usize>)
        requires
            self.wf(),
        ensures
            match r {
                Some(i) => {
                    &&& self@.has_break(id@)
                    &&& i == self@.break_index(id@)
                    &&& i < self@.breaks.len()
                    &&& self@.breaks[i as int].id@ == id@
                },
                None => !self@.has_break(id@),
            },
    {
        let mut i: usize = 0;
        while i < self.breaks.len()
            invariant
                i <= self.breaks@.len(),
                forall|j: int| 0 <= j < i ==> self.breaks@[j].id@ != id@,
                self.wf(),
            decreases self.breaks@.len() - i,
        {
            if self.breaks[i].id.same_as(id) {
                let ghost ids = break_ids(self.breaks@);
                assert(ids[i as int] == id@);
                assert(ids.contains(id@));
                assert(ids.index_of(id@) == i);
                return Some(i);
            }
            i += 1;
        }
        None
    }

    fn repair_position(&self, id: &BreakId) -> (r: Option<usize>)
        requires
            self.wf(),
        ensures
            match r {
                Some(i) => {
                    &&& self@.has_repair(id@)
                    &&& i == self@.repair_index(id@)
                    &&& i < self@.repairs.len()
                    &&& self@.repairs[i as int].break_id@ == id@
                },
                None => !self@.has_repair(id@),
            },
    {
        let mut i: usize = 0;
        while i < self.repairs.len()
            invariant
                i <= self.repairs@.len(),
                forall|j: int| 0 <= j < i ==> self.repairs@[j].break_id@ != id@,
                self.wf(),
            decreases self.repairs@.len() - i,
        {
            if self.repairs[i].break_id.same_as(id) {
                let ghost ids = repair_ids(self.repairs@);
                assert(ids[i as int] == id@);
                assert(ids.contains(id@));
                assert(ids.index_of(id@) == i);
                return Some(i);
            }
            i += 1;
        }
        None
    }
}


impl GoldenTrail {
    /// Record a break, returning its `BreakId`. A break already recorded
    /// under the same identifier is replaced.
    pub fn record_break(&mut self, brk: Break) -> (id: BreakId)
        requires
            old(self).wf(),
        ensures
            final(self).wf(),
            final(self)@ == old(self)@.recorded(brk),
            id == brk.id,
    {
        let id = brk.id.clone();
        let ghost old_ids = break_ids(self.breaks@);
        match self.break_position(&id) {
            Some(i) => {
                self.breaks.set(i, brk);
                assert(break_ids(self.breaks@) =~= old_ids);
            },
            None => {
                self.breaks.push(brk);
                assert(break_ids(self.breaks@) =~= old_ids.push(id@));
                assert forall|k: int| 0 <= k < self.repairs@.len() implies self@.has_break(
                    #[trigger] self.repairs@[k].break_id@,
                ) by {
                    let j = old_ids.index_of(self.repairs@[k].break_id@);
                    assert(break_ids(self.breaks@)[j] == self.repairs@[k].break_id@);
                }
            },
        }
        id
    }

    /// Repair a break recorded in this trail, with the gold clamped to the
    /// unit interval. Returns `None` if the break was not found or is already
    /// repaired; the trail is then unchanged.
    pub fn repair(
        &mut self,
        break_id: &BreakId,
        method: &str,
        gold: Binary64,
        repairer: &str,
        insight: &str,
        before: &str,
        after: &str,
    ) -> (r: Option<&Repair>)
        requires
            old(self).wf(),
        ensures
            final(self).wf(),
            r is Some <==> old(self)@.can_repair(break_id@),
            r is None ==> final(self)@ == old(self)@,
            r matches Some(rep) ==> {
                &&& final(self)@ == old(self)@.with_repair(*rep)
                &&& rep.made_from(
                    break_id@,
                    method@,
                    gold,
                    repairer@,
                    insight@,
                    before@,
                    after@,
                )
            },
    {
        let found = self.break_position(break_id);
        if found.is_none() {
            return None;
        }
        if self.repair_position(break_id).is_some() {
            return None;
        }
        let repair = Repair {
            break_id: break_id.clone(),
            method: method.to_owned(),
            gold_content: gold.clamp_unit(),
            repaired_tick: 0,
            repairer: repairer.to_owned(),
            insight: insight.to_owned(),
            before_state: before.to_owned(),
            after_state: after.to_owned(),
        };
        let ghost old_ids = repair_ids(self.repairs@);
        let n = self.repairs.len();
        self.repairs.push(repair);
        assert(repair_ids(self.repairs@) =~= old_ids.push(break_id@));
        assert(self@.has_break(break_id@));
        assert forall|k: int| 0 <= k < self.repairs@.len() implies self@.has_break(
            #[trigger] self.repairs@[k].break_id@,
        ) by {
            if k < n {
                assert(old(self).repairs@[k] == self.repairs@[k]);
                assert(old(self)@.has_break(old(self)@.repairs[k].break_id@));
            } else {
                assert(self.repairs@[k].break_id@ == break_id@);
            }
        }
        Some(&self.repairs[n])
    }

    /// Look up a break by id.
    pub fn get_break(&self, id: &BreakId) -> (r: Option<&Break>)
        requires
            self.wf(),
        ensures
            r is Some <==> self@.has_break(id@),
            r matches Some(b) ==> *b == self@.break_of(id@),
            r matches Some(b) ==> b.id@ == id@ && self@.breaks.contains(*b),
    {
        match self.break_position(id) {
            Some(i) => Some(&self.breaks[i]),
            None => None,
        }
    }

    /// Look up a repair by break id.
    pub fn get_repair(&self, id: &BreakId) -> (r: Option<&Repair>)
        requires
            self.wf(),
        ensures
            r is Some <==> self@.has_repair(id@),
            r matches Some(rep) ==> *rep == self@.repair_of(id@),
            r matches Some(rep) ==> rep.break_id@ == id@ && self@.repairs.contains(*rep),
    {
        match self.repair_position(id) {
            Some(i) => Some(&self.repairs[i]),
            None => None,
        }
    }

    /// All breaks that have not yet been repaired, in recording order.
    pub fn unrepaired(&self) -> (r: Vec<&Break>)
        requires
            self.wf(),
        ensures
            deref_seq(r@) == self@.unrepaired(),
    {
        let mut out: Vec<&Break> = Vec::new();
        let n = self.breaks.len();
        let mut i: usize = 0;
        while i < n
            invariant
                n == self.breaks@.len(),
                i <= n,
                self.wf(),
                deref_seq(out@) == self.breaks@.take(i as int).filter(self@.unrepaired_filter()),
            decreases n - i,
        {
            let b = &self.breaks[i];
            let ghost pred = self@.unrepaired_filter();
            assert(self.breaks@.take(i + 1) =~= self.breaks@.take(i as int).push(*b));
            proof {
                self.breaks@.take(i as int).lemma_filter_push(*b, pred);
            }
            if self.repair_position(&b.id).is_none() {
                let ghost before = out@;
                out.push(b);
                assert(deref_seq(out@) =~= deref_seq(before).push(*b));
            }
            i += 1;
        }
        assert(self.breaks@.take(n as int) =~= self.breaks@);
        out
    }

    /// All repairs that are golden (gold content above seven tenths), in the
    /// order they were made.
    pub fn golden_repairs(&self) -> (r: Vec<&Repair>)
        requires
            self.wf(),
        ensures
            deref_seq(r@) == self@.golden_repairs(),
    {
        let mut out: Vec<&Repair> = Vec::new();
        let n = self.repairs.len();
        let mut i: usize = 0;
        while i < n
            invariant
                n == self.repairs@.len(),
                i <= n,
                deref_seq(out@) == self.repairs@.take(i as int).filter(TrailState::golden_filter()),
            decreases n - i,
        {
            let rep = &self.repairs[i];
            assert(self.repairs@.take(i + 1) =~= self.repairs@.take(i as int).push(*rep));
            proof {
                self.repairs@.take(i as int).lemma_filter_push(*rep, TrailState::golden_filter());
            }
            if rep.is_golden() {
                let ghost before = out@;
                out.push(rep);
                assert(deref_seq(out@) =~= deref_seq(before).push(*rep));
            }
            i += 1;
        }
        assert(self.repairs@.take(n as int) =~= self.repairs@);
        out
    }

    /// The repair with the highest gold content, if any: the last of the
    /// maximal ones in repair order (a NaN compares equal to everything).
    pub fn most_insightful_repair(&self) -> (r: Option<&Repair>)
        ensures
            r is None <==> self@.repairs.len() == 0,
            r matches Some(rep) ==> *rep == best_repair(self@.repairs),
    {
        let n = self.repairs.len();
        if n == 0 {
            return None;
        }
        let mut best: usize = 0;
        let mut i: usize = 1;
        assert(self.repairs@.take(1).drop_last() =~= Seq::<Repair>::empty());
        while i < n
            invariant
                n == self.repairs@.len(),
                1 <= i <= n,
                best < i,
                self.repairs@[best as int] == best_repair(self.repairs@.take(i as int)),
            decreases n - i,
        {
            assert(self.repairs@.take(i + 1).drop_last() =~= self.repairs@.take(i as int));
            if !self.repairs[best].gold_content.gt(&self.repairs[i].gold_content) {
                best = i;
            }
            i += 1;
        }
        assert(self.repairs@.take(n as int) =~= self.repairs@);
        Some(&self.repairs[best])
    }
}


impl GoldenTrail {
    /// Frequency of each `BreakType` across all recorded breaks.
    pub fn break_frequency(&self) -> (f: BreakFrequency)
        ensures
            f.wf(),
            forall|bt: BreakType| #[trigger] f.count(bt) == self@.type_count(bt),
            forall|bt: BreakType|
                #[trigger] f.count(bt) == Set::new(
                    |i: int| 0 <= i < self@.breaks.len() && self@.breaks[i].break_type == bt,
                ).len(),
    {
        let mut f = BreakFrequency { entries: Vec::new() };
        assert(entry_types(f.entries@) =~= Seq::empty());
        let n = self.breaks.len();
        let mut i: usize = 0;
        while i < n
            invariant
                n == self.breaks@.len(),
                i <= n,
                f.wf(),
                forall|bt: BreakType|
                    #[trigger] f.count(bt) == self.breaks@.take(i as int).filter(
                        TrailState::type_filter(bt),
                    ).len(),
            decreases n - i,
        {
            let bt = self.breaks[i].break_type;
            let ghost prefix = self.breaks@.take(i as int);
            let ghost b = self.breaks@[i as int];
            assert(self.breaks@.take(i + 1) =~= prefix.push(b));
            assert forall|t: BreakType|
                #[trigger] self.breaks@.take(i + 1).filter(TrailState::type_filter(t)).len() == (
                if t == bt {
                    prefix.filter(TrailState::type_filter(t)).len() + 1int
                } else {
                    prefix.filter(TrailState::type_filter(t)).len() as int
                }) by {
                prefix.lemma_filter_push(b, TrailState::type_filter(t));
            }
            let ghost old_entries = f.entries@;
            let ghost old_types = entry_types(old_entries);
            let ghost old_f = f;
            match f.position(bt) {
                Some(j) => {
                    let c = f.entries[j].1;
                    assert(old_f.count(bt) == c);
                    proof {
                        prefix.lemma_filter_len(TrailState::type_filter(bt));
                    }
                    f.entries.set(j, (bt, c + 1));
                    assert(entry_types(f.entries@) =~= old_types);
                    assert forall|t: BreakType|
                        #[trigger] f.count(t) == old_f.count(t) + (if t == bt {
                            1int
                        } else {
                            0int
                        }) by {
                        if t != bt && old_types.contains(t) {
                            assert(old_types.index_of(t) != j);
                        }
                    }
                    assert forall|k: int| 0 <= k < f.entries@.len() implies #[trigger] f.entries@[k].1
                        > 0 by {
                        if k != j {
                            assert(f.entries@[k] == old_entries[k]);
                        }
                    }
                },
                None => {
                    f.entries.push((bt, 1));
                    let ghost types = entry_types(f.entries@);
                    assert(types =~= old_types.push(bt));
                    assert(types[old_types.len() as int] == bt);
                    assert forall|t: BreakType|
                        #[trigger] f.count(t) == old_f.count(t) + (if t == bt {
                            1int
                        } else {
                            0int
                        }) by {
                        if t == bt {
                            assert(types.contains(bt));
                            assert(types.index_of(bt) == old_types.len());
                        } else if old_types.contains(t) {
                            let k = old_types.index_of(t);
                            assert(types[k] == t);
                            assert(types.contains(t));
                            assert(types.index_of(t) == k);
                        } else {
                            assert(!types.contains(t));
                        }
                    }
                    assert forall|k: int| 0 <= k < f.entries@.len() implies #[trigger] f.entries@[k].1
                        > 0 by {
                        if k < old_entries.len() {
                            assert(f.entries@[k] == old_entries[k]);
                        }
                    }
                },
            }
            assert forall|t: BreakType|
                #[trigger] f.count(t) == self.breaks@.take(i + 1).filter(
                    TrailState::type_filter(t),
                ).len() by {
                assert(old_f.count(t) == prefix.filter(TrailState::type_filter(t)).len());
                assert(self.breaks@.take(i + 1).filter(TrailState::type_filter(t)).len() == (
                if t == bt {
                    prefix.filter(TrailState::type_filter(t)).len() + 1int
                } else {
                    prefix.filter(TrailState::type_filter(t)).len() as int
                }));
            }
            i += 1;
        }
        assert(self.breaks@.take(n as int) =~= self.breaks@);
        assert forall|bt: BreakType|
            #[trigger] f.count(bt) == Set::new(
                |i: int| 0 <= i < self@.breaks.len() && self@.breaks[i].break_type == bt,
            ).len() by {
            law_type_count_counts_breaks_of_the_category(self@, bt);
        }
        f
    }
}

impl Default for GoldenTrail {
    fn default() -> (t: GoldenTrail)
        ensures
            t@ == TrailState::empty(),
            t.wf(),
    {
        GoldenTrail::new()
    }
}


impl GoldenTrail {
    /// A trail made of the given breaks and repairs, or `None` when they do
    /// not form a trail: an identifier occurs twice among the breaks or among
    /// the repairs, or a repair belongs to no break.
    pub fn from_parts(breaks: Vec<Break>, repairs: Vec<Repair>) -> (r: Option<GoldenTrail>)
        ensures
            r is Some <==> (TrailState { breaks: breaks@, repairs: repairs@ }).wf(),
            r matches Some(t) ==> t@ == (TrailState { breaks: breaks@, repairs: repairs@ }),
    {
        let nb = breaks.len();
        let mut i: usize = 0;
        while i < nb
            invariant
                nb == breaks@.len(),
                i <= nb,
                forall|a: int, b: int|
                    0 <= a < i && 0 <= b < i && a != b ==> breaks@[a].id@ != breaks@[b].id@,
            decreases nb - i,
        {
            let mut j: usize = 0;
            while j < i
                invariant
                    nb == breaks@.len(),
                    j <= i < nb,
                    forall|b: int| 0 <= b < j ==> breaks@[b].id@ != breaks@[i as int].id@,
                decreases i - j,
            {
                if breaks[j].id.same_as(&breaks[i].id) {
                    assert(break_ids(breaks@)[j as int] == break_ids(breaks@)[i as int]);
                    return None;
                }
                j += 1;
            }
            i += 1;
        }
        assert(break_ids(breaks@).no_duplicates()) by {
            assert forall|a: int, b: int|
                0 <= a < break_ids(breaks@).len() && 0 <= b < break_ids(breaks@).len() && a
                    != b implies break_ids(breaks@)[a] != break_ids(breaks@)[b] by {
                assert(breaks@[a].id@ != breaks@[b].id@);
            }
        }
        let nr = repairs.len();
        let mut i: usize = 0;
        while i < nr
            invariant
                nr == repairs@.len(),
                i <= nr,
                forall|a: int, b: int|
                    0 <= a < i && 0 <= b < i && a != b ==> repairs@[a].break_id@
                        != repairs@[b].break_id@,
            decreases nr - i,
        {
            let mut j: usize = 0;
            while j < i
                invariant
                    nr == repairs@.len(),
                    j <= i < nr,
                    forall|b: int| 0 <= b < j ==> repairs@[b].break_id@ != repairs@[i as int].break_id@,
                decreases i - j,
            {
                if repairs[j].break_id.same_as(&repairs[i].break_id) {
                    assert(repair_ids(repairs@)[j as int] == repair_ids(repairs@)[i as int]);
                    return None;
                }
                j += 1;
            }
            i += 1;
        }
        assert(repair_ids(repairs@).no_duplicates()) by {
            assert forall|a: int, b: int|
                0 <= a < repair_ids(repairs@).len() && 0 <= b < repair_ids(repairs@).len() && a
                    != b implies repair_ids(repairs@)[a] != repair_ids(repairs@)[b] by {
                assert(repairs@[a].break_id@ != repairs@[b].break_id@);
            }
        }
        let ghost state = TrailState { breaks: breaks@, repairs: repairs@ };
        let mut k: usize = 0;
        while k < nr
            invariant
                nr == repairs@.len(),
                nb == breaks@.len(),
                k <= nr,
                state == (TrailState { breaks: breaks@, repairs: repairs@ }),
                forall|a: int| 0 <= a < k ==> state.has_break(#[trigger] repairs@[a].break_id@),
            decreases nr - k,
        {
            let mut j: usize = 0;
            let mut found = false;
            while j < nb
                invariant
                    nb == breaks@.len(),
                    k < nr == repairs@.len(),
                    j <= nb,
                    state == (TrailState { breaks: breaks@, repairs: repairs@ }),
                    found ==> state.has_break(repairs@[k as int].break_id@),
                    !found ==> forall|b: int| 0 <= b < j ==> breaks@[b].id@ != repairs@[k as int].break_id@,
                decreases nb - j,
            {
                if !found && breaks[j].id.same_as(&repairs[k].break_id) {
                    assert(break_ids(breaks@)[j as int] == repairs@[k as int].break_id@);
                    found = true;
                }
                j += 1;
            }
            if !found {
                assert(!state.has_break(repairs@[k as int].break_id@));
                return None;
            }
            k += 1;
        }
        Some(GoldenTrail { breaks, repairs })
    }
}

/// Recording a break makes it the break found under its identifier, leaves
/// every other identifier's break and all repairs as they were, and keeps the
/// trail's invariant.
pub proof fn law_record_then_lookup(t: TrailState, brk: Break)
    requires
        t.wf(),
    ensures
        t.recorded(brk).wf(),
        t.recorded(brk).has_break(brk.id@),
        t.recorded(brk).break_of(brk.id@) == brk,
        t.recorded(brk).repairs == t.repairs,
        forall|k: Seq<char>|
            k != brk.id@ ==> (#[trigger] t.recorded(brk).has_break(k) == t.has_break(k)),
        forall|k: Seq<char>|
            k != brk.id@ && t.has_break(k) ==> #[trigger] t.recorded(brk).break_of(k)
                == t.break_of(k),
{
    let u = t.recorded(brk);
    let ids = break_ids(t.breaks);
    let nids = break_ids(u.breaks);
    if t.has_break(brk.id@) {
        let i = t.break_index(brk.id@);
        assert(nids =~= ids);
        assert(nids.index_of(brk.id@) == i);
        assert forall|k: Seq<char>| k != brk.id@ && t.has_break(k) implies #[trigger] u.break_of(k)
            == t.break_of(k) by {
            assert(ids.index_of(k) != i);
        }
    } else {
        assert(nids =~= ids.push(brk.id@));
        assert(nids[ids.len() as int] == brk.id@);
        assert(nids.index_of(brk.id@) == ids.len());
        assert forall|k: Seq<char>|
            k != brk.id@ implies (#[trigger] u.has_break(k) == t.has_break(k)) by {
            if t.has_break(k) {
                assert(nids[ids.index_of(k)] == k);
            }
            if u.has_break(k) {
                let j = nids.index_of(k);
                assert(ids[j] == k);
            }
        }
        assert forall|k: Seq<char>| k != brk.id@ && t.has_break(k) implies #[trigger] u.break_of(k)
            == t.break_of(k) by {
            let j = ids.index_of(k);
            assert(nids[j] == k);
            assert(nids.index_of(k) == j);
        }
        assert forall|k: int| 0 <= k < u.repairs.len() implies u.has_break(
            #[trigger] u.repairs[k].break_id@,
        ) by {
            assert(t.has_break(t.repairs[k].break_id@));
            let j = ids.index_of(t.repairs[k].break_id@);
            assert(nids[j] == t.repairs[k].break_id@);
        }
    }
}

/// A break is repaired at most once: after a repair of a repairable break the
/// repair is found under the break's identifier, the break cannot be repaired
/// again, and the trail's invariant holds.
pub proof fn law_repair_at_most_once(t: TrailState, r: Repair)
    requires
        t.wf(),
        t.can_repair(r.break_id@),
    ensures
        t.with_repair(r).wf(),
        t.with_repair(r).has_repair(r.break_id@),
        t.with_repair(r).repair_of(r.break_id@) == r,
        !t.with_repair(r).can_repair(r.break_id@),
        t.with_repair(r).breaks == t.breaks,
        forall|k: Seq<char>|
            k != r.break_id@ ==> (#[trigger] t.with_repair(r).has_repair(k) == t.has_repair(k)),
        forall|k: Seq<char>|
            k != r.break_id@ && t.has_repair(k) ==> #[trigger] t.with_repair(r).repair_of(k)
                == t.repair_of(k),
{
    let u = t.with_repair(r);
    let ids = repair_ids(t.repairs);
    let nids = repair_ids(u.repairs);
    assert(nids =~= ids.push(r.break_id@));
    assert(nids[ids.len() as int] == r.break_id@);
    assert(nids.index_of(r.break_id@) == ids.len());
    assert forall|k: Seq<char>| k != r.break_id@ implies (#[trigger] u.has_repair(k)
        == t.has_repair(k)) by {
        if t.has_repair(k) {
            assert(nids[ids.index_of(k)] == k);
        }
        if u.has_repair(k) {
            let j = nids.index_of(k);
            assert(ids[j] == k);
        }
    }
    assert forall|k: Seq<char>| k != r.break_id@ && t.has_repair(k) implies #[trigger] u.repair_of(k)
        == t.repair_of(k) by {
        let j = ids.index_of(k);
        assert(nids[j] == k);
        assert(nids.index_of(k) == j);
    }
    assert forall|k: int| 0 <= k < u.repairs.len() implies u.has_break(
        #[trigger] u.repairs[k].break_id@,
    ) by {
        if k < t.repairs.len() {
            assert(t.has_break(t.repairs[k].break_id@));
        }
    }
}

/// There are never more repairs than recorded breaks.
pub proof fn law_repairs_bounded_by_breaks(t: TrailState)
    requires
        t.wf(),
    ensures
        t.repairs.len() <= t.breaks.len(),
{
    let rids = repair_ids(t.repairs);
    let bids = break_ids(t.breaks);
    rids.unique_seq_to_set();
    bids.unique_seq_to_set();
    assert(rids.to_set().subset_of(bids.to_set())) by {
        assert forall|k: Seq<char>| rids.to_set().contains(k) implies bids.to_set().contains(k) by {
            let j = choose|j: int| 0 <= j < rids.len() && rids[j] == k;
            assert(t.has_break(t.repairs[j].break_id@));
        }
    }
    vstd::set_lib::lemma_len_subset(rids.to_set(), bids.to_set());
}

/// The repair that `most_insightful_repair` returns is one of the repairs, and
/// when no gold content is a NaN, no repair has more gold than it.
pub proof fn law_best_repair_is_maximal(s: Seq<Repair>)
    requires
        s.len() > 0,
    ensures
        s.contains(best_repair(s)),
        (forall|i: int| 0 <= i < s.len() ==> !(#[trigger] s[i]).gold_content.nan()) ==> forall|
            i: int,
        |
            0 <= i < s.len() ==> (#[trigger] s[i]).gold_content.rank() <= best_repair(
                s,
            ).gold_content.rank(),
    decreases s.len(),
{
    if s.len() > 1 {
        let p = s.drop_last();
        law_best_repair_is_maximal(p);
        let b = best_repair(p);
        let j = choose|j: int| 0 <= j < p.len() && p[j] == b;
        assert(s[j] == b);
        assert(s[s.len() - 1] == s.last());
        if forall|i: int| 0 <= i < s.len() ==> !(#[trigger] s[i]).gold_content.nan() {
            assert forall|i: int| 0 <= i < s.len() implies (#[trigger] s[i]).gold_content.rank()
                <= best_repair(s).gold_content.rank() by {
                assert(!s[j].gold_content.nan());
                if i < p.len() {
                    assert(p[i] == s[i]);
                    assert(!p[i].gold_content.nan());
                }
            }
        }
    } else {
        assert(s[0] == best_repair(s));
    }
}


/// The counts of all categories, added up.
pub open spec fn all_type_counts(t: TrailState) -> nat {
    t.type_count(BreakType::CompilationError) + t.type_count(BreakType::RuntimeCrash)
        + t.type_count(BreakType::ConservationViolation) + t.type_count(BreakType::AgentFailure)
        + t.type_count(BreakType::BuildCollapse) + t.type_count(BreakType::RoomDissolution)
        + t.type_count(BreakType::SkillFailure) + t.type_count(BreakType::NetworkTimeout)
}

/// The frequencies of the categories add up to the number of recorded breaks.
pub proof fn law_frequencies_count_every_break(t: TrailState)
    ensures
        all_type_counts(t) == t.breaks.len(),
    decreases t.breaks.len(),
{
    if t.breaks.len() == 0 {
        assert forall|bt: BreakType| #[trigger] t.type_count(bt) == 0 by {
            t.breaks.lemma_filter_len(TrailState::type_filter(bt));
        }
    } else {
        let p = TrailState { breaks: t.breaks.drop_last(), repairs: t.repairs };
        law_frequencies_count_every_break(p);
        assert(t.breaks =~= p.breaks.push(t.breaks.last()));
        assert forall|bt: BreakType|
            #[trigger] t.type_count(bt) == p.type_count(bt) + (if t.breaks.last().break_type == bt {
                1int
            } else {
                0int
            }) by {
            p.breaks.lemma_filter_push(t.breaks.last(), TrailState::type_filter(bt));
        }
    }
}

/// Filtering by a predicate and by its negation splits a sequence in two.
proof fn lemma_filter_split<A>(s: Seq<A>, p: spec_fn(A) -> bool, q: spec_fn(A) -> bool)
    requires
        forall|x: A| #[trigger] q(x) == !p(x),
    ensures
        s.filter(p).len() + s.filter(q).len() == s.len(),
    decreases s.len(),
{
    if s.len() == 0 {
        s.lemma_filter_len(p);
        s.lemma_filter_len(q);
    } else {
        let d = s.drop_last();
        lemma_filter_split(d, p, q);
        assert(s =~= d.push(s.last()));
        d.lemma_filter_push(s.last(), p);
        d.lemma_filter_push(s.last(), q);
    }
}

/// Filtering breaks with unique identifiers keeps the identifiers unique, and
/// every identifier of the result is one of the original's.
proof fn lemma_filter_keeps_ids_unique(s: Seq<Break>, p: spec_fn(Break) -> bool)
    requires
        break_ids(s).no_duplicates(),
    ensures
        break_ids(s.filter(p)).no_duplicates(),
        forall|k: Seq<char>| #[trigger] break_ids(s.filter(p)).contains(k) ==> break_ids(s).contains(k) && p(
            s[break_ids(s).index_of(k)],
        ),
    decreases s.len(),
{
    if s.len() == 0 {
        s.lemma_filter_len(p);
        assert(break_ids(s.filter(p)) =~= Seq::<Seq<char>>::empty());
    } else {
        let d = s.drop_last();
        let b = s.last();
        assert(s =~= d.push(b));
        assert(break_ids(s) =~= break_ids(d).push(b.id@));
        assert(break_ids(d).no_duplicates()) by {
            assert forall|i: int, j: int|
                0 <= i < break_ids(d).len() && 0 <= j < break_ids(d).len() && i != j implies break_ids(
                d,
            )[i] != break_ids(d)[j] by {
                assert(break_ids(d)[i] == break_ids(s)[i]);
                assert(break_ids(d)[j] == break_ids(s)[j]);
            }
        }
        lemma_filter_keeps_ids_unique(d, p);
        d.lemma_filter_push(b, p);
        let fd = d.filter(p);
        assert(!break_ids(d).contains(b.id@)) by {
            if break_ids(d).contains(b.id@) {
                let j = break_ids(d).index_of(b.id@);
                assert(break_ids(s)[j] == break_ids(s)[d.len() as int]);
            }
        }
        if p(b) {
            assert(break_ids(s.filter(p)) =~= break_ids(fd).push(b.id@));
            assert(!break_ids(fd).contains(b.id@));
        }
        assert forall|k: Seq<char>| #[trigger] break_ids(s.filter(p)).contains(k) implies break_ids(
            s,
        ).contains(k) && p(s[break_ids(s).index_of(k)]) by {
            if break_ids(fd).contains(k) {
                let j = break_ids(d).index_of(k);
                assert(break_ids(s)[j] == k);
                assert(break_ids(s).index_of(k) == j);
            } else {
                assert(p(b) && k == b.id@);
                assert(break_ids(s)[d.len() as int] == k);
                assert(break_ids(s).index_of(k) == d.len());
            }
        }
    }
}

/// Every recorded break is either unrepaired or has exactly one repair: the
/// unrepaired breaks and the repairs together number the recorded breaks.
pub proof fn law_unrepaired_and_repairs_partition_breaks(t: TrailState)
    requires
        t.wf(),
    ensures
        t.unrepaired().len() + t.repairs.len() == t.breaks.len(),
{
    let p = |b: Break| t.has_repair(b.id@);
    lemma_filter_split(t.breaks, p, t.unrepaired_filter());
    let q = t.breaks.filter(p);
    lemma_filter_keeps_ids_unique(t.breaks, p);
    let qids = break_ids(q);
    let rids = repair_ids(t.repairs);
    assert(qids.to_set() =~= rids.to_set()) by {
        assert forall|k: Seq<char>| qids.to_set().contains(k) implies rids.to_set().contains(k) by {
            assert(qids.contains(k));
        }
        assert forall|k: Seq<char>| rids.to_set().contains(k) implies qids.to_set().contains(k) by {
            let j = choose|j: int| 0 <= j < rids.len() && rids[j] == k;
            assert(t.has_break(t.repairs[j].break_id@));
            let i = t.break_index(k);
            assert(break_ids(t.breaks)[i] == k);
            assert(p(t.breaks[i]));
            t.breaks.lemma_filter_contains(p, i);
            let m = choose|m: int| 0 <= m < q.len() && q[m] == t.breaks[i];
            assert(qids[m] == k);
        }
    }
    qids.unique_seq_to_set();
    rids.unique_seq_to_set();
}


/// What a filter keeps: exactly the elements that satisfy the predicate, and
/// no element twice when the sequence has none twice.
proof fn lemma_filter_exact<A>(s: Seq<A>, p: spec_fn(A) -> bool)
    ensures
        forall|x: A| #[trigger] s.filter(p).contains(x) ==> s.contains(x) && p(x),
        forall|i: int| 0 <= i < s.len() && p(#[trigger] s[i]) ==> s.filter(p).contains(s[i]),
        s.no_duplicates() ==> s.filter(p).no_duplicates(),
    decreases s.len(),
{
    assert forall|x: A| #[trigger] s.filter(p).contains(x) implies s.contains(x) && p(x) by {
        s.lemma_filter_contains_rev(p, x);
        let j = choose|j: int| 0 <= j < s.filter(p).len() && s.filter(p)[j] == x;
        s.lemma_filter_pred(p, j);
    }
    assert forall|i: int| 0 <= i < s.len() && p(#[trigger] s[i]) implies s.filter(p).contains(s[i]) by {
        s.lemma_filter_contains(p, i);
    }
    if s.len() == 0 {
        s.lemma_filter_len(p);
    } else {
        let d = s.drop_last();
        let x = s.last();
        lemma_filter_exact(d, p);
        assert(s =~= d.push(x));
        d.lemma_filter_push(x, p);
        if s.no_duplicates() {
            assert(d.no_duplicates()) by {
                assert forall|i: int, j: int| 0 <= i < d.len() && 0 <= j < d.len() && i != j implies d[i]
                    != d[j] by {
                    assert(d[i] == s[i] && d[j] == s[j]);
                }
            }
            if p(x) {
                assert(!d.filter(p).contains(x)) by {
                    if d.filter(p).contains(x) {
                        let j = choose|j: int| 0 <= j < d.len() && d[j] == x;
                        assert(s[j] == s[s.len() - 1]);
                    }
                }
                let f = d.filter(p);
                assert forall|i: int, j: int|
                    0 <= i < f.push(x).len() && 0 <= j < f.push(x).len() && i != j implies f.push(x)[i]
                    != f.push(x)[j] by {
                    if i < f.len() && j < f.len() {
                    } else if i < f.len() {
                        assert(f.contains(f[i]));
                    } else {
                        assert(f.contains(f[j]));
                    }
                }
            }
        }
    }
}

/// Two repairs of a trail are never the same repair.
proof fn lemma_repairs_distinct(t: TrailState)
    requires
        t.wf(),
    ensures
        t.repairs.no_duplicates(),
        t.breaks.no_duplicates(),
{
    assert forall|i: int, j: int| 0 <= i < t.repairs.len() && 0 <= j < t.repairs.len() && i != j implies t.repairs[i]
        != t.repairs[j] by {
        assert(repair_ids(t.repairs)[i] != repair_ids(t.repairs)[j]);
    }
    assert forall|i: int, j: int| 0 <= i < t.breaks.len() && 0 <= j < t.breaks.len() && i != j implies t.breaks[i]
        != t.breaks[j] by {
        assert(break_ids(t.breaks)[i] != break_ids(t.breaks)[j]);
    }
}

/// The golden repairs are exactly the repairs whose gold content exceeds
/// seven tenths, each listed once.
pub proof fn law_golden_repairs_are_the_golden_ones(t: TrailState)
    requires
        t.wf(),
    ensures
        forall|i: int|
            0 <= i < t.repairs.len() && (#[trigger] t.repairs[i]).gold_content.greater_than(
                Binary64 { bits: SEVEN_TENTHS_BITS },
            ) ==> t.golden_repairs().contains(t.repairs[i]),
        forall|r: Repair| #[trigger]
            t.golden_repairs().contains(r) ==> t.repairs.contains(r) && r.gold_content.greater_than(
                Binary64 { bits: SEVEN_TENTHS_BITS },
            ),
        t.golden_repairs().no_duplicates(),
{
    lemma_filter_exact(t.repairs, TrailState::golden_filter());
    lemma_repairs_distinct(t);
}

/// The unrepaired breaks are exactly the recorded breaks that have no repair,
/// each listed once.
pub proof fn law_unrepaired_are_the_breaks_without_repair(t: TrailState)
    requires
        t.wf(),
    ensures
        forall|i: int|
            0 <= i < t.breaks.len() && !(exists|j: int|
                0 <= j < t.repairs.len() && t.repairs[j].break_id@ == (#[trigger] t.breaks[i]).id@)
                ==> t.unrepaired().contains(t.breaks[i]),
        forall|b: Break| #[trigger]
            t.unrepaired().contains(b) ==> t.breaks.contains(b) && forall|j: int|
                0 <= j < t.repairs.len() ==> t.repairs[j].break_id@ != b.id@,
        t.unrepaired().no_duplicates(),
{
    lemma_filter_exact(t.breaks, t.unrepaired_filter());
    lemma_repairs_distinct(t);
    assert forall|b: Break| #[trigger] t.unrepaired().contains(b) implies t.breaks.contains(b)
        && forall|j: int| 0 <= j < t.repairs.len() ==> t.repairs[j].break_id@ != b.id@ by {
        assert forall|j: int| 0 <= j < t.repairs.len() implies t.repairs[j].break_id@ != b.id@ by {
            if t.repairs[j].break_id@ == b.id@ {
                assert(repair_ids(t.repairs)[j] == b.id@);
            }
        }
    }
    assert forall|i: int|
        0 <= i < t.breaks.len() && !(exists|j: int|
            0 <= j < t.repairs.len() && t.repairs[j].break_id@ == (#[trigger] t.breaks[i]).id@)
        implies t.unrepaired().contains(t.breaks[i]) by {
        if t.has_repair(t.breaks[i].id@) {
            let j = repair_ids(t.repairs).index_of(t.breaks[i].id@);
            assert(t.repairs[j].break_id@ == t.breaks[i].id@);
        }
    }
}

/// A lookup finds the entry stored under the asked identifier: a break is
/// recorded under `k` exactly when some break has identifier `k`, and the
/// break (or repair) found under `k` is one of the trail's and carries `k`.
pub proof fn law_lookups_belong_to_their_id(t: TrailState)
    requires
        t.wf(),
    ensures
        forall|k: Seq<char>|
            #[trigger] t.has_break(k) <==> exists|i: int| 0 <= i < t.breaks.len() && t.breaks[i].id@ == k,
        forall|k: Seq<char>|
            #[trigger] t.has_repair(k) <==> exists|i: int|
                0 <= i < t.repairs.len() && t.repairs[i].break_id@ == k,
        forall|k: Seq<char>|
            #[trigger] t.has_break(k) ==> t.breaks.contains(t.break_of(k)) && t.break_of(k).id@ == k,
        forall|k: Seq<char>|
            #[trigger] t.has_repair(k) ==> t.repairs.contains(t.repair_of(k)) && t.repair_of(k).break_id@
                == k,
{
    assert forall|k: Seq<char>|
        #[trigger] t.has_break(k) <==> exists|i: int| 0 <= i < t.breaks.len() && t.breaks[i].id@ == k by {
        if exists|i: int| 0 <= i < t.breaks.len() && t.breaks[i].id@ == k {
            let i = choose|i: int| 0 <= i < t.breaks.len() && t.breaks[i].id@ == k;
            assert(break_ids(t.breaks)[i] == k);
        }
    }
    assert forall|k: Seq<char>|
        #[trigger] t.has_repair(k) <==> exists|i: int|
            0 <= i < t.repairs.len() && t.repairs[i].break_id@ == k by {
        if exists|i: int| 0 <= i < t.repairs.len() && t.repairs[i].break_id@ == k {
            let i = choose|i: int| 0 <= i < t.repairs.len() && t.repairs[i].break_id@ == k;
            assert(repair_ids(t.repairs)[i] == k);
        }
    }
    assert forall|k: Seq<char>| #[trigger] t.has_break(k) implies t.breaks.contains(t.break_of(k))
        && t.break_of(k).id@ == k by {
        let i = t.break_index(k);
        assert(break_ids(t.breaks)[i] == k);
    }
    assert forall|k: Seq<char>| #[trigger] t.has_repair(k) implies t.repairs.contains(t.repair_of(k))
        && t.repair_of(k).break_id@ == k by {
        let i = t.repair_index(k);
        assert(repair_ids(t.repairs)[i] == k);
    }
}

/// The number of breaks of a category, counted over their positions.
proof fn lemma_type_count_is_index_count(s: Seq<Break>, bt: BreakType)
    ensures
        Set::new(|i: int| 0 <= i < s.len() && s[i].break_type == bt).finite(),
        s.filter(TrailState::type_filter(bt)).len() == Set::new(
            |i: int| 0 <= i < s.len() && s[i].break_type == bt,
        ).len(),
    decreases s.len(),
{
    let idx = Set::new(|i: int| 0 <= i < s.len() && s[i].break_type == bt);
    vstd::set_lib::lemma_int_range(0, s.len() as int);
    assert(idx.subset_of(vstd::set_lib::set_int_range(0, s.len() as int)));
    vstd::set_lib::lemma_len_subset(idx, vstd::set_lib::set_int_range(0, s.len() as int));
    if s.len() == 0 {
        s.lemma_filter_len(TrailState::type_filter(bt));
        assert(idx =~= Set::<int>::empty());
    } else {
        let d = s.drop_last();
        lemma_type_count_is_index_count(d, bt);
        let didx = Set::new(|i: int| 0 <= i < d.len() && d[i].break_type == bt);
        assert(s =~= d.push(s.last()));
        d.lemma_filter_push(s.last(), TrailState::type_filter(bt));
        if s.last().break_type == bt {
            assert(idx =~= didx.insert(d.len() as int));
        } else {
            assert(idx =~= didx);
        }
    }
}

/// Each category's count is the number of recorded breaks of that category.
pub proof fn law_type_count_counts_breaks_of_the_category(t: TrailState, bt: BreakType)
    ensures
        t.type_count(bt) == Set::new(
            |i: int| 0 <= i < t.breaks.len() && t.breaks[i].break_type == bt,
        ).len(),
        Set::new(|i: int| 0 <= i < t.breaks.len() && t.breaks[i].break_type == bt).finite(),
{
    lemma_type_count_is_index_count(t.breaks, bt);
}

} // verus!
