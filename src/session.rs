use vstd::prelude::*;
use crate::buffer::{pushed, CpuSample, RollingBuffer, CAPACITY};
use crate::trigger::{qualifies, TriggerState};
use crate::writer::{should_write, writes_at, CADENCE};

verus! {

/// Everything the sampling loop keeps from one iteration to the next.
pub struct Session {
    pub iteration: u64,
    pub trigger: TriggerState,
    pub buffer: RollingBuffer,
}

/// What one iteration of the sampling loop has to do besides printing.
pub struct StepPlan {
    /// Run the report step (select recent logs, start the generator).
    pub generate_reports: bool,
    /// Append the sample to today's log file.
    pub write_row: bool,
    /// Render the chart of the rolling buffer (if a display is attached).
    pub render_chart: bool,
}

impl Session {
    pub open spec fn wf(&self) -> bool {
        self.buffer.wf()
    }

    pub fn new() -> (r: Session)
        ensures
            r.wf(),
            r.iteration == 0,
            r.trigger.last_triggered_day is None,
            r.buffer@.len() == 0,
    {
        Session { iteration: 0, trigger: TriggerState::new(), buffer: RollingBuffer::new() }
    }

    /// Takes the decisions of one loop iteration for a sample taken at `day` of
    /// month and `minute` of hour: whether the report fires (and the debounce
    /// state that follows), whether the durable row is due, the sample entering
    /// the rolling buffer, and whether the buffer is full enough to chart.
    pub fn step(&mut self, day: u32, minute: u32, sample: CpuSample) -> (r: StepPlan)
        requires
            old(self).wf(),
            old(self).iteration < u64::MAX,
        ensures
            final(self).wf(),
            r.generate_reports == qualifies(old(self).trigger.last_triggered_day, day, minute),
            final(self).trigger.last_triggered_day == (if r.generate_reports {
                Some(day)
            } else {
                old(self).trigger.last_triggered_day
            }),
            r.write_row == writes_at(old(self).iteration as nat, CADENCE as nat),
            final(self).buffer@ == pushed(old(self).buffer@, sample),
            r.render_chart == (final(self).buffer@.len() == CAPACITY),
            final(self).iteration == old(self).iteration + 1,
    {
        let generate_reports = self.trigger.evaluate(day, minute);
        let write_row = should_write(self.iteration, CADENCE);
        self.buffer.push(sample);
        let render_chart = self.buffer.is_full();
        self.iteration = self.iteration + 1;
        StepPlan { generate_reports, write_row, render_chart }
    }
}

} // verus!
