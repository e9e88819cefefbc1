//! How a writer keeps readers from starving it: it announces itself before
//! it asks for the outer lock, and readers that come after the announcement
//! wait until it is withdrawn.

use vstd::prelude::*;
use crate::sync::WriterIntent;
use crate::sync::lock_intent;
use crate::sync::new_flag;
use crate::sync::new_wakeup;
use crate::sync::set_pending;
use crate::sync::wait_while_pending;
use crate::sync::wake_all;

verus! {

impl WriterIntent {
    /// A channel on which no writer is announced.
    pub fn new() -> Self {
        WriterIntent { pending: new_flag(false), wakeup: new_wakeup() }
    }

    /// Announces a writer: from now on readers wait.
    pub fn begin_writer_intent(&self) {
        let mut hold = lock_intent(self);
        set_pending(&mut hold, true);
    }

    /// Withdraws the announcement and wakes the readers that wait.
    pub fn clear_writer_intent(&self) {
        {
            let mut hold = lock_intent(self);
            set_pending(&mut hold, false);
        }
        wake_all(self);
    }

    /// Waits until no writer is announced. The mutex of the channel is let
    /// go again before this returns.
    pub fn wait_for_writer(&self) {
        let mut hold = lock_intent(self);
        wait_while_pending(&mut hold);
    }

    /// Wakes the readers that wait, to look at the flag again.
    pub fn broadcast(&self) {
        wake_all(self);
    }
}

} // verus!
