use vstd::prelude::*;

verus! {

/// Describes the state of each aggregator instance.
#[derive(Clone, Copy, Debug, PartialEq, Eq, Structural)]
pub enum AggregatorState {
    /// The aggregator stores a known value.
    Data,
    /// The aggregator stores a non-negative delta.
    PositiveDelta,
    /// The aggregator stores a negative delta.
    NegativeDelta,
}

/// Why an aggregator operation was refused.
#[derive(Clone, Copy, Debug, PartialEq, Eq, Structural)]
pub enum AggregatorError {
    /// The result would exceed the aggregator's limit.
    Overflow,
    /// The result would drop below zero.
    Underflow,
    /// The aggregator was deleted from storage.
    Deleted,
}

/// `base + value`, refused when the sum exceeds `limit`.
pub fn addition(base: u128, value: u128, limit: u128) -> (r: Result<u128, AggregatorError>)
    ensures
        base + value <= limit ==> r == Ok::<u128, AggregatorError>((base + value) as u128),
        base + value > limit ==> r == Err::<u128, AggregatorError>(AggregatorError::Overflow),
{
    if limit < base || value > limit - base {
        Err(AggregatorError::Overflow)
    } else {
        Ok(base + value)
    }
}

/// `base - value`, refused when the difference is negative.
pub fn subtraction(base: u128, value: u128) -> (r: Result<u128, AggregatorError>)
    ensures
        value <= base ==> r == Ok::<u128, AggregatorError>((base - value) as u128),
        value > base ==> r == Err::<u128, AggregatorError>(AggregatorError::Underflow),
{
    if value > base {
        Err(AggregatorError::Underflow)
    } else {
        Ok(base - value)
    }
}

/// The largest positive and the largest negative delta that an aggregator
/// reached during execution. A base value is good for the whole history iff
/// it survives both extremes: every intermediate delta lies between them.
#[derive(Debug)]
pub struct History {
    pub max_positive: u128,
    pub min_negative: u128,
}

impl History {
    pub fn new() -> (r: History)
        ensures
            r.max_positive == 0,
            r.min_negative == 0,
    {
        History { max_positive: 0, min_negative: 0 }
    }

    pub fn record_positive(&mut self, value: u128)
        ensures
            final(self).max_positive == if value > old(self).max_positive { value } else { old(self).max_positive },
            final(self).min_negative == old(self).min_negative,
    {
        if value > self.max_positive {
            self.max_positive = value;
        }
    }

    pub fn record_negative(&mut self, value: u128)
        ensures
            final(self).min_negative == if value > old(self).min_negative { value } else { old(self).min_negative },
            final(self).max_positive == old(self).max_positive,
    {
        if value > self.min_negative {
            self.min_negative = value;
        }
    }
}

/// An aggregator: either a known value, or a signed delta (magnitude `value`,
/// sign given by `state`) to be applied later to a value in storage.
#[derive(Debug)]
pub struct Aggregator {
    pub value: u128,
    pub state: AggregatorState,
    /// Upper bound of the aggregator; the lower bound is zero.
    pub limit: u128,
    /// Extremes seen while in a delta state; absent once the value is known.
    pub history: Option<History>,
}

/// The delta that a state and a magnitude stand for.
pub open spec fn signed(state: AggregatorState, value: u128) -> int {
    match state {
        AggregatorState::NegativeDelta => -(value as int),
        _ => value as int,
    }
}

impl Aggregator {
    /// History is tracked exactly in the delta states, every delta in it
    /// stays within the limit, and the current delta lies within it.
    pub open spec fn wf(&self) -> bool {
        &&& (self.state == AggregatorState::Data) == self.history.is_none()
        &&& self.state == AggregatorState::Data ==> self.value <= self.limit
        &&& self.state == AggregatorState::NegativeDelta ==> self.value > 0
        &&& self.history.is_some() ==> {
            let h = self.history.unwrap();
            -(h.min_negative as int) <= signed(self.state, self.value) <= h.max_positive
        }
    }

    /// Whether `add(v)` succeeds.
    pub open spec fn add_ok(&self, v: u128) -> bool {
        self.state == AggregatorState::NegativeDelta || self.value + v <= self.limit
    }

    /// Whether `sub(v)` succeeds.
    pub open spec fn sub_ok(&self, v: u128) -> bool {
        match self.state {
            AggregatorState::Data => v <= self.value,
            AggregatorState::PositiveDelta => v <= self.value || v <= self.limit,
            AggregatorState::NegativeDelta => self.value + v <= self.limit,
        }
    }

    /// The aggregator after its delta moved to `d`, with the history
    /// widened to cover `d`.
    pub open spec fn moved_to(&self, d: int) -> Aggregator {
        let h = self.history.unwrap();
        Aggregator {
            value: (if d >= 0 { d } else { -d }) as u128,
            state: if d >= 0 { AggregatorState::PositiveDelta } else { AggregatorState::NegativeDelta },
            limit: self.limit,
            history: Some(
                if d >= 0 {
                    History { max_positive: if d > h.max_positive { d as u128 } else { h.max_positive }, min_negative: h.min_negative }
                } else {
                    History { max_positive: h.max_positive, min_negative: if -d > h.min_negative { (-d) as u128 } else { h.min_negative } }
                },
            ),
        }
    }

    /// Records the current delta in the history.
    fn record(&mut self)
        requires
            old(self).history.is_some() ==> old(self).state != AggregatorState::Data,
        ensures
            old(self).history.is_none() ==> *final(self) == *old(self),
            old(self).history matches Some(h) ==> {
                &&& final(self).value == old(self).value
                &&& final(self).state == old(self).state
                &&& final(self).limit == old(self).limit
                &&& final(self).history == Some(if old(self).state == AggregatorState::PositiveDelta {
                    History { max_positive: if old(self).value > h.max_positive { old(self).value } else { h.max_positive }, min_negative: h.min_negative }
                } else {
                    History { max_positive: h.max_positive, min_negative: if old(self).value > h.min_negative { old(self).value } else { h.min_negative } }
                })
            },
            old(self).history.is_some() && (old(self).state == AggregatorState::NegativeDelta ==> old(self).value > 0)
                ==> *final(self) == old(self).moved_to(signed(old(self).state, old(self).value)),
    {
        if let Some(history) = self.history.as_mut() {
            match self.state {
                AggregatorState::PositiveDelta => history.record_positive(self.value),
                AggregatorState::NegativeDelta => history.record_negative(self.value),
                AggregatorState::Data => {},
            }
        }
    }

    /// Adds `v`. A known value must stay within the limit, and so must a
    /// positive delta; a negative delta may always grow towards positive.
    pub fn add(&mut self, v: u128) -> (r: Result<(), AggregatorError>)
        requires
            old(self).wf(),
        ensures
            final(self).wf(),
            r.is_ok() == old(self).add_ok(v),
            r.is_err() ==> r == Err::<(), AggregatorError>(AggregatorError::Overflow) && *final(self) == *old(self),
            r.is_ok() && old(self).state == AggregatorState::Data ==> *final(self) == (Aggregator {
                value: (old(self).value + v) as u128,
                state: AggregatorState::Data,
                limit: old(self).limit,
                history: None,
            }),
            r.is_ok() && old(self).state != AggregatorState::Data ==>
                *final(self) == old(self).moved_to(signed(old(self).state, old(self).value) + v),
    {
        match self.state {
            AggregatorState::Data => {
                self.value = addition(self.value, v, self.limit)?;
                return Ok(());
            },
            AggregatorState::PositiveDelta => {
                self.value = addition(self.value, v, self.limit)?;
            },
            AggregatorState::NegativeDelta => {
                if self.value <= v {
                    self.value = subtraction(v, self.value)?;
                    self.state = AggregatorState::PositiveDelta;
                } else {
                    self.value = subtraction(self.value, v)?;
                }
            },
        }
        self.record();
        Ok(())
    }

    /// Subtracts `v`. A known value must stay non-negative; a positive delta
    /// may turn negative by at most the limit; a negative delta must stay
    /// within the limit.
    pub fn sub(&mut self, v: u128) -> (r: Result<(), AggregatorError>)
        requires
            old(self).wf(),
        ensures
            final(self).wf(),
            r.is_ok() == old(self).sub_ok(v),
            r.is_err() ==> *final(self) == *old(self) && r == Err::<(), AggregatorError>(
                if old(self).state == AggregatorState::NegativeDelta { AggregatorError::Overflow } else { AggregatorError::Underflow },
            ),
            r.is_ok() && old(self).state == AggregatorState::Data ==> *final(self) == (Aggregator {
                value: (old(self).value - v) as u128,
                state: AggregatorState::Data,
                limit: old(self).limit,
                history: None,
            }),
            r.is_ok() && old(self).state != AggregatorState::Data ==>
                *final(self) == old(self).moved_to(signed(old(self).state, old(self).value) - v),
    {
        match self.state {
            AggregatorState::Data => {
                self.value = subtraction(self.value, v)?;
                return Ok(());
            },
            AggregatorState::PositiveDelta => {
                if self.value >= v {
                    self.value = subtraction(self.value, v)?;
                } else {
                    subtraction(self.limit, v)?;
                    self.value = subtraction(v, self.value)?;
                    self.state = AggregatorState::NegativeDelta;
                }
            },
            AggregatorState::NegativeDelta => {
                self.value = addition(self.value, v, self.limit)?;
            },
        }
        self.record();
        Ok(())
    }

    /// Whether `base` survives every delta in the history: adding the
    /// largest positive delta stays within the limit, and subtracting the
    /// largest negative one stays non-negative.
    pub fn validate_history(&self, base: u128) -> (r: Result<(), AggregatorError>)
        requires
            self.history.is_some(),
        ensures
            ({
                let h = self.history.unwrap();
                r == if base + h.max_positive > self.limit {
                    Err::<(), AggregatorError>(AggregatorError::Overflow)
                } else if h.min_negative > base {
                    Err::<(), AggregatorError>(AggregatorError::Underflow)
                } else {
                    Ok::<(), AggregatorError>(())
                }
            }),
    {
        let history = self.history.as_ref().unwrap();
        addition(base, history.max_positive, self.limit)?;
        subtraction(base, history.min_negative)?;
        Ok(())
    }

    /// Reads the aggregator's value. A known value is returned as is. A
    /// delta is applied to `stored`, the value in storage (`None` when the
    /// aggregator was deleted there), after the history was validated
    /// against it; the aggregator then knows its value.
    pub fn read_and_materialize(&mut self, stored: Option<u128>) -> (r: Result<u128, AggregatorError>)
        requires
            old(self).wf(),
        ensures
            final(self).wf(),
            old(self).state == AggregatorState::Data ==> r == Ok::<u128, AggregatorError>(old(self).value) && *final(self) == *old(self),
            old(self).state != AggregatorState::Data ==> match stored {
                None => r == Err::<u128, AggregatorError>(AggregatorError::Deleted) && *final(self) == *old(self),
                Some(base) => {
                    let h = old(self).history.unwrap();
                    if base + h.max_positive > old(self).limit {
                        r == Err::<u128, AggregatorError>(AggregatorError::Overflow) && *final(self) == *old(self)
                    } else if h.min_negative > base {
                        r == Err::<u128, AggregatorError>(AggregatorError::Underflow) && *final(self) == *old(self)
                    } else {
                        &&& r == Ok::<u128, AggregatorError>(final(self).value)
                        &&& final(self).value == base + signed(old(self).state, old(self).value)
                        &&& final(self).state == AggregatorState::Data
                        &&& final(self).limit == old(self).limit
                        &&& final(self).history.is_none()
                    }
                },
            },
    {
        if self.state == AggregatorState::Data {
            return Ok(self.value);
        }
        let base = match stored {
            Some(b) => b,
            None => return Err(AggregatorError::Deleted),
        };
        self.validate_history(base)?;
        let value = match self.state {
            AggregatorState::PositiveDelta => base + self.value,
            _ => base - self.value,
        };
        self.value = value;
        self.state = AggregatorState::Data;
        self.history = None;
        Ok(self.value)
    }

    /// Unpacks the aggregator into its value, state, limit and history.
    pub fn into(self) -> (r: (u128, AggregatorState, u128, Option<History>))
        ensures
            r == (self.value, self.state, self.limit, self.history),
    {
        (self.value, self.state, self.limit, self.history)
    }

    pub open spec fn new_data_spec(limit: u128) -> Aggregator {
        Aggregator { value: 0, state: AggregatorState::Data, limit, history: None }
    }

    pub open spec fn new_delta_spec(limit: u128) -> Aggregator {
        Aggregator {
            value: 0,
            state: AggregatorState::PositiveDelta,
            limit,
            history: Some(History { max_positive: 0, min_negative: 0 }),
        }
    }

    /// A fresh aggregator whose value is known to be zero.
    pub fn new_data(limit: u128) -> (r: Aggregator)
        ensures
            r.wf(),
            r == Aggregator::new_data_spec(limit),
    {
        Aggregator { value: 0, state: AggregatorState::Data, limit, history: None }
    }

    /// A fresh aggregator holding the delta `+0` over a value in storage.
    pub fn new_delta(limit: u128) -> (r: Aggregator)
        ensures
            r.wf(),
            r == Aggregator::new_delta_spec(limit),
    {
        Aggregator {
            value: 0,
            state: AggregatorState::PositiveDelta,
            limit,
            history: Some(History::new()),
        }
    }
}

/// The address of an aggregator, which is its key in the table that holds it.
#[derive(Clone, Copy, Debug, PartialEq, Eq, Structural, Hash)]
pub struct AggregatorHandle(pub u128);

/// Identifies an aggregator in storage: the table that holds it and its
/// key in that table.
#[derive(Clone, Copy, Debug, PartialEq, Eq, Structural, Hash)]
pub struct AggregatorID {
    pub handle: u128,
    pub key: u128,
}

impl AggregatorID {
    /// The aggregator at `key` in the table `handle`.
    pub fn new(handle: u128, key: AggregatorHandle) -> (r: AggregatorID)
        ensures
            r == (AggregatorID { handle, key: key.0 }),
    {
        AggregatorID { handle, key: key.0 }
    }
}

/// Whether `ids` holds `id`.
fn position_of(ids: &Vec<AggregatorID>, id: AggregatorID) -> (r: Option<usize>)
    ensures
        r is None ==> !ids@.contains(id),
        r matches Some(i) ==> i < ids@.len() && ids@[i as int] == id,
{
    let mut i: usize = 0;
    while i < ids.len()
        invariant
            i <= ids@.len(),
            forall|j: int| 0 <= j < i ==> ids@[j] != id,
        decreases ids@.len() - i,
    {
        if ids[i] == id {
            return Some(i);
        }
        i = i + 1;
    }
    None
}

/// The aggregators that one transaction uses, and which of them it
/// created or destroyed. Each list holds an id at most once and keeps the
/// order in which ids first came in; it is not sorted by id.
#[derive(Debug)]
pub struct AggregatorData {
    /// Aggregators created in this transaction.
    pub new_aggregators: Vec<AggregatorID>,
    /// Aggregators of storage destroyed in this transaction.
    pub destroyed_aggregators: Vec<AggregatorID>,
    /// Every aggregator in use, each id once.
    pub aggregators: Vec<(AggregatorID, Aggregator)>,
}

impl Default for AggregatorData {
    fn default() -> (r: AggregatorData)
        ensures
            r.wf(),
            r.new_aggregators@.len() == 0,
            r.destroyed_aggregators@.len() == 0,
            r.aggregators@.len() == 0,
    {
        AggregatorData::new()
    }
}

/// The ids of a list of pairs.
pub open spec fn ids_of(pairs: Seq<(AggregatorID, Aggregator)>) -> Seq<AggregatorID> {
    pairs.map_values(|p: (AggregatorID, Aggregator)| p.0)
}

impl AggregatorData {
    /// Each list holds an id at most once, every aggregator is well formed,
    /// and every id created in this transaction is still in use.
    pub open spec fn wf_parts(
        created: Seq<AggregatorID>,
        destroyed: Seq<AggregatorID>,
        aggregators: Seq<(AggregatorID, Aggregator)>,
    ) -> bool {
        &&& created.no_duplicates()
        &&& destroyed.no_duplicates()
        &&& ids_of(aggregators).no_duplicates()
        &&& forall|i: int| 0 <= i < aggregators.len() ==> (#[trigger] aggregators[i]).1.wf()
        &&& forall|x: AggregatorID| #[trigger] created.contains(x) ==> ids_of(aggregators).contains(x)
    }

    pub open spec fn wf(&self) -> bool {
        AggregatorData::wf_parts(self.new_aggregators@, self.destroyed_aggregators@, self.aggregators@)
    }

    /// No aggregators.
    pub fn new() -> (r: AggregatorData)
        ensures
            r.wf(),
            r.new_aggregators@.len() == 0,
            r.destroyed_aggregators@.len() == 0,
            r.aggregators@.len() == 0,
    {
        AggregatorData { new_aggregators: Vec::new(), destroyed_aggregators: Vec::new(), aggregators: Vec::new() }
    }

    fn slot(&self, id: AggregatorID) -> (r: Option<usize>)
        ensures
            r is None ==> !ids_of(self.aggregators@).contains(id),
            r matches Some(i) ==> i < self.aggregators@.len() && self.aggregators@[i as int].0 == id,
    {
        let mut i: usize = 0;
        while i < self.aggregators.len()
            invariant
                i <= self.aggregators@.len(),
                forall|j: int| 0 <= j < i ==> self.aggregators@[j].0 != id,
            decreases self.aggregators@.len() - i,
        {
            if self.aggregators[i].0 == id {
                return Some(i);
            }
            i = i + 1;
        }
        proof {
            assert forall|j: int| 0 <= j < self.aggregators@.len() implies ids_of(self.aggregators@)[j] != id by {
                assert(ids_of(self.aggregators@)[j] == self.aggregators@[j].0);
            }
        }
        None
    }

    /// The aggregator with `id`. One that this transaction has not used yet
    /// is added, as the delta `+0` with `limit` over the value in storage.
    pub fn get_aggregator(&mut self, id: AggregatorID, limit: u128) -> (r: &mut Aggregator)
        requires
            old(self).wf(),
        ensures
            r.wf(),
            final(self).new_aggregators == old(self).new_aggregators,
            final(self).destroyed_aggregators == old(self).destroyed_aggregators,
            ids_of(old(self).aggregators@).contains(id) ==> exists|i: int| {
                &&& 0 <= i < old(self).aggregators@.len()
                &&& old(self).aggregators@[i].0 == id
                &&& *r == old(self).aggregators@[i].1
                &&& final(self).aggregators@ == old(self).aggregators@.update(i, (id, *final(r)))
            },
            !ids_of(old(self).aggregators@).contains(id) ==> *r == Aggregator::new_delta_spec(limit),
            !ids_of(old(self).aggregators@).contains(id) ==> final(self).aggregators@ =~= old(self).aggregators@.push((id, *final(r))),
    {
        match self.slot(id) {
            Some(i) => {
                assert(ids_of(self.aggregators@)[i as int] == id);
                &mut self.aggregators[i].1
            },
            None => {
                self.aggregators.push((id, Aggregator::new_delta(limit)));
                let last = self.aggregators.len() - 1;
                assert(self.aggregators@ == old(self).aggregators@.push((id, Aggregator::new_delta_spec(limit))));
                &mut self.aggregators[last].1
            },
        }
    }

    /// How many aggregators this transaction uses.
    pub fn num_aggregators(&self) -> (r: u128)
        ensures
            r == self.aggregators@.len(),
    {
        self.aggregators.len() as u128
    }

    /// Adds a new aggregator with `id` and `limit`: its value is known to be
    /// zero. It counts as created in this transaction.
    pub fn create_new_aggregator(&mut self, id: AggregatorID, limit: u128)
        requires
            old(self).wf(),
        ensures
            final(self).wf(),
            final(self).destroyed_aggregators == old(self).destroyed_aggregators,
            forall|x: AggregatorID| final(self).new_aggregators@.contains(x) <==> (old(self).new_aggregators@.contains(x) || x == id),
            forall|x: AggregatorID| ids_of(final(self).aggregators@).contains(x) <==> (ids_of(old(self).aggregators@).contains(x) || x == id),
            exists|i: int| 0 <= i < final(self).aggregators@.len() && final(self).aggregators@[i] == (id, Aggregator::new_data_spec(limit)),
            ids_of(old(self).aggregators@).contains(id) ==> exists|i: int| 0 <= i < old(self).aggregators@.len()
                && old(self).aggregators@[i].0 == id
                && final(self).aggregators@ == old(self).aggregators@.update(i, (id, Aggregator::new_data_spec(limit))),
            !ids_of(old(self).aggregators@).contains(id)
                ==> final(self).aggregators@ == old(self).aggregators@.push((id, Aggregator::new_data_spec(limit))),
    {
        let fresh = Aggregator::new_data(limit);
        let ghost ix: int;
        match self.slot(id) {
            Some(i) => {
                let ghost a0 = self.aggregators@;
                self.aggregators.set(i, (id, fresh));
                proof {
                    assert(ids_of(self.aggregators@) =~= ids_of(a0));
                    assert(self.aggregators@[i as int] == (id, fresh));
                    assert(ids_of(a0)[i as int] == id);
                    assert(ids_of(a0).contains(id));
                    ix = i as int;
                    assert forall|j: int| 0 <= j < self.aggregators@.len() implies (#[trigger] self.aggregators@[j]).1.wf() by {
                        if j != i {
                            assert(self.aggregators@[j] == a0[j]);
                        }
                    }
                }
            },
            None => {
                let ghost a0 = self.aggregators@;
                self.aggregators.push((id, fresh));
                proof {
                    assert(ids_of(self.aggregators@) =~= ids_of(a0).push(id));
                    assert(self.aggregators@[a0.len() as int] == (id, fresh));
                    lemma_push_fresh(ids_of(a0), id);
                    ix = a0.len() as int;
                    assert forall|j: int| 0 <= j < self.aggregators@.len() implies (#[trigger] self.aggregators@[j]).1.wf() by {
                        if j < a0.len() {
                            assert(self.aggregators@[j] == a0[j]);
                        }
                    }
                }
            },
        }
        let ghost a1 = self.aggregators@;
        assert(a1[ix] == (id, Aggregator::new_data_spec(limit)));
        match position_of(&self.new_aggregators, id) {
            None => {
                let ghost n0 = self.new_aggregators@;
                self.new_aggregators.push(id);
                proof {
                    lemma_push_fresh(n0, id);
                }
            },
            Some(k) => {
                assert(self.new_aggregators@.contains(id));
            },
        }
        proof {
            assert(ids_of(self.aggregators@).contains(id)) by {
                assert(ids_of(self.aggregators@)[ix] == id);
            }
            assert forall|x: AggregatorID| #[trigger] self.new_aggregators@.contains(x) implies ids_of(self.aggregators@).contains(x) by {
                if x != id {
                    assert(old(self).new_aggregators@.contains(x));
                }
            }
        }
        assert(self.aggregators@[ix] == (id, Aggregator::new_data_spec(limit)));
    }

    /// Stops using the aggregator with `id`. One created in this
    /// transaction leaves no trace; any other is recorded as destroyed.
    pub fn remove_aggregator(&mut self, id: AggregatorID)
        requires
            old(self).wf(),
        ensures
            final(self).wf(),
            !ids_of(final(self).aggregators@).contains(id),
            ids_of(old(self).aggregators@).contains(id) ==> exists|i: int| 0 <= i < old(self).aggregators@.len()
                && old(self).aggregators@[i].0 == id && final(self).aggregators@ == old(self).aggregators@.remove(i),
            !ids_of(old(self).aggregators@).contains(id) ==> final(self).aggregators@ == old(self).aggregators@,
            forall|x: AggregatorID| x != id ==> (ids_of(final(self).aggregators@).contains(x) <==> ids_of(old(self).aggregators@).contains(x)),
            old(self).new_aggregators@.contains(id) ==> {
                &&& forall|x: AggregatorID| final(self).new_aggregators@.contains(x) <==> (old(self).new_aggregators@.contains(x) && x != id)
                &&& final(self).destroyed_aggregators == old(self).destroyed_aggregators
            },
            !old(self).new_aggregators@.contains(id) ==> {
                &&& final(self).new_aggregators == old(self).new_aggregators
                &&& forall|x: AggregatorID| final(self).destroyed_aggregators@.contains(x) <==> (old(self).destroyed_aggregators@.contains(x) || x == id)
            },
    {
        if let Some(i) = self.slot(id) {
            let ghost a0 = self.aggregators@;
            self.aggregators.remove(i);
            proof {
                lemma_remove_unique(a0, i as int);
                assert(ids_of(a0)[i as int] == id);
                lemma_remove_unique_ids(ids_of(a0), i as int);
                assert forall|j: int| 0 <= j < self.aggregators@.len() implies (#[trigger] self.aggregators@[j]).1.wf() by {
                    if j < i {
                        assert(self.aggregators@[j] == a0[j]);
                    } else {
                        assert(self.aggregators@[j] == a0[j + 1]);
                    }
                }
            }
        }
        match position_of(&self.new_aggregators, id) {
            Some(i) => {
                let ghost n0 = self.new_aggregators@;
                self.new_aggregators.remove(i);
                proof {
                    lemma_remove_unique_ids(n0, i as int);
                }
            },
            None => {
                if position_of(&self.destroyed_aggregators, id).is_none() {
                    let ghost d0 = self.destroyed_aggregators@;
                    self.destroyed_aggregators.push(id);
                    proof {
                        lemma_push_fresh(d0, id);
                    }
                }
            },
        }
        proof {
            assert forall|x: AggregatorID| #[trigger] self.new_aggregators@.contains(x) implies ids_of(self.aggregators@).contains(x) by {
                assert(old(self).new_aggregators@.contains(x));
                assert(x != id);
                assert(ids_of(old(self).aggregators@).contains(x));
            }
        }
    }

    /// Unpacks into the created ids, the destroyed ids and the aggregators
    /// in use.
    pub fn into(self) -> (r: (Vec<AggregatorID>, Vec<AggregatorID>, Vec<(AggregatorID, Aggregator)>))
        ensures
            r.0 == self.new_aggregators,
            r.1 == self.destroyed_aggregators,
            r.2 == self.aggregators,
    {
        (self.new_aggregators, self.destroyed_aggregators, self.aggregators)
    }
}

proof fn lemma_push_fresh(s: Seq<AggregatorID>, x: AggregatorID)
    requires
        s.no_duplicates(),
        !s.contains(x),
    ensures
        s.push(x).no_duplicates(),
        forall|y: AggregatorID| s.push(x).contains(y) <==> (s.contains(y) || y == x),
{
    assert forall|a: int, b: int| 0 <= a < b < s.len() + 1 implies s.push(x)[a] != s.push(x)[b] by {
        assert(s.push(x)[a] == s[a]);
        if b == s.len() {
            assert(s.contains(s[a]));
        } else {
            assert(s.push(x)[b] == s[b]);
        }
    }
    assert forall|y: AggregatorID| s.push(x).contains(y) <==> (s.contains(y) || y == x) by {
        if s.push(x).contains(y) {
            let k = choose|k: int| 0 <= k < s.len() + 1 && s.push(x)[k] == y;
            if k < s.len() {
                assert(s[k] == y);
            }
        }
        if s.contains(y) {
            let k = choose|k: int| 0 <= k < s.len() && s[k] == y;
            assert(s.push(x)[k] == y);
        }
        if y == x {
            assert(s.push(x)[s.len() as int] == y);
        }
    }
}

proof fn lemma_remove_unique_ids(s: Seq<AggregatorID>, i: int)
    requires
        s.no_duplicates(),
        0 <= i < s.len(),
    ensures
        s.remove(i).no_duplicates(),
        forall|y: AggregatorID| s.remove(i).contains(y) <==> (s.contains(y) && y != s[i]),
{
    let r = s.remove(i);
    assert forall|k: int| 0 <= k < r.len() implies r[k] == (if k < i { s[k] } else { s[k + 1] }) by {}
    assert forall|a: int, b: int| 0 <= a < b < r.len() implies r[a] != r[b] by {
        let sa = if a < i { a } else { a + 1 };
        let sb = if b < i { b } else { b + 1 };
        assert(r[a] == s[sa] && r[b] == s[sb]);
    }
    assert forall|y: AggregatorID| r.contains(y) <==> (s.contains(y) && y != s[i]) by {
        if r.contains(y) {
            let k = choose|k: int| 0 <= k < r.len() && r[k] == y;
            let sk = if k < i { k } else { k + 1 };
            assert(s[sk] == y);
        }
        if s.contains(y) && y != s[i] {
            let k = choose|k: int| 0 <= k < s.len() && s[k] == y;
            if k < i {
                assert(r[k] == y);
            } else {
                assert(k != i);
                assert(r[k - 1] == y);
            }
        }
    }
}

proof fn lemma_remove_unique(a: Seq<(AggregatorID, Aggregator)>, i: int)
    requires
        ids_of(a).no_duplicates(),
        0 <= i < a.len(),
    ensures
        ids_of(a.remove(i)) == ids_of(a).remove(i),
{
    assert(ids_of(a.remove(i)) =~= ids_of(a).remove(i));
}

} // verus!
