//! Transient notification banners: a message with a creation time and a
//! lifetime, expiring three seconds after it is raised.
use vstd::prelude::*;

use crate::clock::now_millis;

verus! {

/// How long a notification stays up, in milliseconds.
pub const TOAST_DURATION_MILLIS: i64 = 3000;

/// One notification banner.
pub struct Toast {
    /// The text shown.
    pub message: String,
    /// When the banner was raised, in milliseconds since the Unix epoch.
    pub created_at: i64,
    /// How long it stays up, in milliseconds.
    pub duration: i64,
}

impl Toast {
    /// Raise a banner now, with the fixed lifetime.
    pub fn new(message: String) -> (r: Toast)
        ensures
            r.message@ == message@,
            r.duration == TOAST_DURATION_MILLIS,
    {
        Toast { message, created_at: now_millis(), duration: TOAST_DURATION_MILLIS }
    }

    /// Whether the banner would be expired at the given time: strictly more
    /// than its lifetime after its creation.
    pub fn is_expired_at(&self, now: i64) -> (r: bool)
        ensures
            r == (now - self.created_at > self.duration),
    {
        let elapsed: i128 = (now as i128) - (self.created_at as i128);
        elapsed > (self.duration as i128)
    }

    /// Whether the banner is expired now. The result depends on the clock;
    /// the comparison itself is `is_expired_at`.
    pub fn is_expired(&self) -> bool {
        self.is_expired_at(now_millis())
    }
}

} // verus!
