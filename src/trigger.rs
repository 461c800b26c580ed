use vstd::prelude::*;

verus! {

/// Debounce state of the report trigger: the day of month on which it last
/// fired, if it has fired since the process started.
pub struct TriggerState {
    pub last_triggered_day: Option<u32>,
}

/// A sample at `day` of month and `minute` of hour qualifies for a report:
/// an even day, not the day already fired, and past the first minute.
pub open spec fn qualifies(last: Option<u32>, day: u32, minute: u32) -> bool {
    &&& day % 2 == 0
    &&& last != Some(day)
    &&& minute >= 1
}

impl TriggerState {
    /// A trigger that has not fired yet.
    pub fn new() -> (r: TriggerState)
        ensures
            r.last_triggered_day is None,
    {
        TriggerState { last_triggered_day: None }
    }

    /// Decides whether the sample at `day` / `minute` fires the report step;
    /// on firing, the day is recorded whatever the report step then does.
    pub fn evaluate(&mut self, day: u32, minute: u32) -> (r: bool)
        ensures
            r == qualifies(old(self).last_triggered_day, day, minute),
            final(self).last_triggered_day == (if r {
                Some(day)
            } else {
                old(self).last_triggered_day
            }),
    {
        let already = match self.last_triggered_day {
            Some(d) => d == day,
            None => false,
        };
        if day % 2 == 0 && !already && minute >= 1 {
            self.last_triggered_day = Some(day);
            true
        } else {
            false
        }
    }
}

/// On an even day the trigger waits for minute one, then fires once, and a
/// later qualifying sample on the same day fires no more.
pub proof fn lemma_fires_once_per_day(last: Option<u32>, day: u32, m0: u32, m1: u32)
    requires
        day % 2 == 0,
        last != Some(day),
        m0 < 1,
        m1 >= 1,
    ensures
        !qualifies(last, day, m0),
        qualifies(last, day, m1),
        forall|m2: u32| !qualifies(Some(day), day, m2),
{
}

/// On an odd day the trigger never fires, whatever the minute or state.
pub proof fn lemma_odd_day_never_fires(last: Option<u32>, day: u32)
    requires
        day % 2 == 1,
    ensures
        forall|m: u32| !qualifies(last, day, m),
{
}

} // verus!
