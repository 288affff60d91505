//! License state: a seven-day trial from first launch, a license key
//! activated and validated against Lemon Squeezy, and the lock once the
//! trial is over with no valid license.
//!
//! A validated license stays valid offline for seven days after the last
//! successful validation, and is validated again once a day.  The network
//! calls themselves are made by the caller, which hands their replies in.
use vstd::prelude::*;
use crate::text::{trim, trim_chars, chars_of, string_of};

verus! {

broadcast use vstd::string::group_string_axioms;

/// Where a license is bought.
pub const BUY_URL: &'static str = "https://synthalorian.lemonsqueezy.com/checkout/buy/REPLACE_ME";

pub const NANOS_PER_SEC: i128 = 1_000_000_000;

pub const TRIAL_DAYS: i64 = 7;

pub const OFFLINE_GRACE_DAYS: i64 = 7;

pub const REVALIDATE_AFTER_HOURS: i64 = 24;

// ---------------------------------------------------------------------------
// Time
// ---------------------------------------------------------------------------

/// A UTC instant: seconds since the Unix epoch and the nanoseconds within
/// that second.
#[derive(Clone, Copy, Debug, PartialEq, Eq, Structural)]
pub struct Timestamp {
    pub secs: i64,
    pub nanos: u32,
}

impl Timestamp {
    /// Nanoseconds since the epoch.
    pub open spec fn total_nanos(self) -> int {
        self.secs * 1_000_000_000 + self.nanos
    }
}

/// The time from `from` to `to` in nanoseconds (`to - from` of two
/// `DateTime`s).
pub open spec fn elapsed_nanos(from: Timestamp, to: Timestamp) -> int {
    to.total_nanos() - from.total_nanos()
}

/// Whole days in a span, rounded toward zero (`TimeDelta::num_days`).
pub open spec fn whole_days(nanos: int) -> int {
    let day = 86_400_000_000_000int;
    if nanos >= 0 {
        nanos / day
    } else {
        -((-nanos) / day)
    }
}

fn elapsed(from: Timestamp, to: Timestamp) -> (r: i128)
    ensures
        r == elapsed_nanos(from, to),
        -0x1_0000_0000_0000_0000_0000_0000 < r < 0x1_0000_0000_0000_0000_0000_0000,
{
    let a = (from.secs as i128) * NANOS_PER_SEC + (from.nanos as i128);
    let b = (to.secs as i128) * NANOS_PER_SEC + (to.nanos as i128);
    b - a
}

fn days_of(nanos: i128) -> (r: i64)
    requires
        -0x1_0000_0000_0000_0000_0000_0000 < nanos < 0x1_0000_0000_0000_0000_0000_0000,
    ensures
        r == whole_days(nanos as int),
        -0x4_0000_0000_0000 < r < 0x4_0000_0000_0000,
{
    let day: i128 = 86_400_000_000_000;
    if nanos >= 0 {
        (nanos / day) as i64
    } else {
        let d = (-nanos) / day;
        -(d as i64)
    }
}

// ---------------------------------------------------------------------------
// Status
// ---------------------------------------------------------------------------

/// The license mode reported to the interface.
#[derive(Clone, Debug)]
pub enum LicenseMode {
    Trial { days_remaining: i64 },
    Licensed { status: String },
    Locked,
}

/// The license status reported to the interface.
#[derive(Clone, Debug)]
pub struct LicenseStatus {
    pub mode: LicenseMode,
    pub buy_url: String,
}

impl LicenseStatus {
    /// A status in the given mode, with the purchase link.
    pub fn new(mode: LicenseMode) -> (r: Self)
        ensures
            r.mode == mode,
            r.buy_url@ == BUY_URL@,
    {
        LicenseStatus { mode, buy_url: BUY_URL.to_string() }
    }

    /// Every mode but `Locked` unlocks the features.
    pub fn is_unlocked(&self) -> (b: bool)
        ensures
            b == !(self.mode is Locked),
    {
        match self.mode {
            LicenseMode::Locked => false,
            _ => true,
        }
    }
}

/// The mode of a trial that started at `first` (or now, when the start was
/// never recorded): the days left, counting whole days elapsed; the trial
/// lasts seven days, so it is locked once seven whole days have passed.
pub open spec fn trial_days_left(first: Option<Timestamp>, now: Timestamp) -> int {
    let start = match first {
        Some(t) => t,
        None => now,
    };
    TRIAL_DAYS - whole_days(elapsed_nanos(start, now))
}

/// The trial status: the days left while fewer than seven whole days have
/// passed since the trial started, locked after.
pub fn trial_status(first_seen: Option<Timestamp>, now: Timestamp) -> (r: LicenseStatus)
    ensures
        r.buy_url@ == BUY_URL@,
        trial_days_left(first_seen, now) > 0 ==> r.mode == (LicenseMode::Trial {
            days_remaining: trial_days_left(first_seen, now) as i64,
        }),
        trial_days_left(first_seen, now) <= 0 ==> r.mode is Locked,
{
    let start = match first_seen {
        Some(t) => t,
        None => now,
    };
    let d = days_of(elapsed(start, now));
    let remaining = TRIAL_DAYS - d;
    if remaining > 0 {
        LicenseStatus::new(LicenseMode::Trial { days_remaining: remaining })
    } else {
        LicenseStatus::new(LicenseMode::Locked)
    }
}

// ---------------------------------------------------------------------------
// Stored license and server replies
// ---------------------------------------------------------------------------

/// What is kept on disk between runs.
#[derive(Clone, Debug)]
pub struct StoredLicense {
    pub license_key: Option<String>,
    pub instance_id: Option<String>,
    pub license_status: Option<String>,
    pub last_validated: Option<Timestamp>,
    pub first_seen: Option<Timestamp>,
}

/// The fields of a Lemon Squeezy license reply that are read.
#[derive(Clone, Debug)]
pub struct LicenseReply {
    pub success: Option<bool>,
    pub error: Option<String>,
    /// `license_key.status`.
    pub key_status: Option<String>,
    /// `instance.id`.
    pub instance_id: Option<String>,
}

/// The outcome of an online validation.
#[derive(Clone, Debug)]
pub enum Validation {
    /// The server confirmed the key; its status.
    Valid(String),
    /// The server refused the key (refunded, disabled, ...).
    Refused(String),
    /// The server could not be reached or gave no readable reply.
    Offline(String),
}

/// The text of an optional string, or a default.
pub open spec fn or_text(o: Option<String>, d: Seq<char>) -> Seq<char> {
    match o {
        Some(s) => s@,
        None => d,
    }
}

fn or_string(o: Option<String>, d: &str) -> (s: String)
    ensures
        s@ == or_text(o, d@),
{
    match o {
        Some(s) => s,
        None => d.to_string(),
    }
}

/// Reads a validation reply: valid with the key's status ("active" when
/// not given) when the reply says success, else refused with the server's
/// error ("inactive" when not given).
pub fn validation_of_reply(reply: LicenseReply) -> (r: Validation)
    ensures
        reply.success == Some(true) ==> (r matches Validation::Valid(s) && s@ == or_text(
            reply.key_status,
            "active"@,
        )),
        reply.success != Some(true) ==> (r matches Validation::Refused(e) && e@ == or_text(
            reply.error,
            "inactive"@,
        )),
{
    if reply.success == Some(true) {
        Validation::Valid(or_string(reply.key_status, "active"))
    } else {
        Validation::Refused(or_string(reply.error, "inactive"))
    }
}

// ---------------------------------------------------------------------------
// License state
// ---------------------------------------------------------------------------

/// The stored license and whether the interface was told of the lock.
#[derive(Clone, Debug)]
pub struct LicenseState {
    pub stored: StoredLicense,
    /// Whether the interface was told of the lock.
    pub locked_notice_sent: bool,
}

/// A validation is stale when there was none, or the last one is more
/// than a day old.
pub open spec fn is_stale(last: Option<Timestamp>, now: Timestamp) -> bool {
    match last {
        Some(t) => elapsed_nanos(t, now) > REVALIDATE_AFTER_HOURS * 3600 * 1_000_000_000,
        None => true,
    }
}

/// Within the offline grace window: validated at most seven days ago.
pub open spec fn within_grace(last: Option<Timestamp>, now: Timestamp) -> bool {
    match last {
        Some(t) => elapsed_nanos(t, now) <= OFFLINE_GRACE_DAYS * 86400 * 1_000_000_000,
        None => false,
    }
}

impl LicenseState {
    /// The state read from disk; the trial clock starts now when it never
    /// started before.
    pub fn new(stored: StoredLicense, now: Timestamp) -> (r: Self)
        ensures
            r.stored.license_key == stored.license_key,
            r.stored.instance_id == stored.instance_id,
            r.stored.license_status == stored.license_status,
            r.stored.last_validated == stored.last_validated,
            r.stored.first_seen == match stored.first_seen {
                Some(t) => Some(t),
                None => Some(now),
            },
            !r.locked_notice_sent,
    {
        let mut stored = stored;
        if stored.first_seen.is_none() {
            stored.first_seen = Some(now);
        }
        LicenseState { stored, locked_notice_sent: false }
    }

    /// Whether a license key is stored (else the trial applies).
    pub fn has_key(&self) -> (b: bool)
        ensures
            b == self.stored.license_key is Some,
    {
        self.stored.license_key.is_some()
    }

    /// The trial status.
    pub fn trial_status(&self, now: Timestamp) -> (r: LicenseStatus)
        ensures
            r.buy_url@ == BUY_URL@,
            trial_days_left(self.stored.first_seen, now) > 0 ==> r.mode == (LicenseMode::Trial {
                days_remaining: trial_days_left(self.stored.first_seen, now) as i64,
            }),
            trial_days_left(self.stored.first_seen, now) <= 0 ==> r.mode is Locked,
    {
        trial_status(self.stored.first_seen, now)
    }

    /// Whether the license must be validated online before its status is
    /// known.
    pub fn needs_validation(&self, now: Timestamp) -> (b: bool)
        ensures
            b == is_stale(self.stored.last_validated, now),
    {
        match self.stored.last_validated {
            Some(t) => elapsed(t, now) > (REVALIDATE_AFTER_HOURS as i128) * 3600 * NANOS_PER_SEC,
            None => true,
        }
    }

    /// The status without asking the server: licensed with the stored
    /// status ("active" when none) within the grace window, else locked.
    pub fn offline_status(&self, now: Timestamp) -> (r: LicenseStatus)
        ensures
            r.buy_url@ == BUY_URL@,
            within_grace(self.stored.last_validated, now) ==> (r.mode matches LicenseMode::Licensed {
                status,
            } && status@ == or_text(self.stored.license_status, "active"@)),
            !within_grace(self.stored.last_validated, now) ==> r.mode is Locked,
    {
        let grace = match self.stored.last_validated {
            Some(t) => elapsed(t, now) <= (OFFLINE_GRACE_DAYS as i128) * 86400 * NANOS_PER_SEC,
            None => false,
        };
        if grace {
            let status = match &self.stored.license_status {
                Some(s) => s.clone(),
                None => "active".to_string(),
            };
            LicenseStatus::new(LicenseMode::Licensed { status })
        } else {
            LicenseStatus::new(LicenseMode::Locked)
        }
    }

    /// Applies the outcome of an online validation made at `now`: a valid
    /// key is stored with its status and the time; a refused key locks; an
    /// unreachable server falls back to the grace window.
    pub fn apply_validation(&mut self, outcome: Validation, now: Timestamp) -> (r: LicenseStatus)
        ensures
            r.buy_url@ == BUY_URL@,
            final(self).stored.license_key == old(self).stored.license_key,
            final(self).stored.instance_id == old(self).stored.instance_id,
            final(self).stored.first_seen == old(self).stored.first_seen,
            final(self).locked_notice_sent == old(self).locked_notice_sent,
            match outcome {
                Validation::Valid(s) => r.mode == (LicenseMode::Licensed { status: s })
                    && final(self).stored.license_status == Some(s)
                    && final(self).stored.last_validated == Some(now),
                Validation::Refused(_) => r.mode is Locked
                    && final(self).stored.license_status == old(self).stored.license_status
                    && final(self).stored.last_validated == old(self).stored.last_validated,
                Validation::Offline(_) => final(self).stored.license_status == old(
                    self,
                ).stored.license_status && final(self).stored.last_validated == old(
                    self,
                ).stored.last_validated && (within_grace(old(self).stored.last_validated, now)
                    ==> (r.mode matches LicenseMode::Licensed { status } && status@ == or_text(
                    old(self).stored.license_status,
                    "active"@,
                ))) && (!within_grace(old(self).stored.last_validated, now) ==> r.mode is Locked),
            },
    {
        match outcome {
            Validation::Valid(status) => {
                self.stored.license_status = Some(status.clone());
                self.stored.last_validated = Some(now);
                LicenseStatus::new(LicenseMode::Licensed { status })
            },
            Validation::Refused(_) => LicenseStatus::new(LicenseMode::Locked),
            Validation::Offline(_) => self.offline_status(now),
        }
    }

    /// Applies an activation reply for `key` received at `now`.  The key
    /// is trimmed first; an empty key, a reply without success and a reply
    /// without an instance are errors, with the message to show.
    pub fn apply_activation(&mut self, key: &str, reply: LicenseReply, now: Timestamp) -> (r: Result<
        LicenseStatus,
        String,
    >)
        ensures
            trim(key@).len() == 0 ==> (r matches Err(m) && m@ == "License key cannot be empty"@),
            trim(key@).len() > 0 && reply.success != Some(true) ==> (r matches Err(m) && m@
                == or_text(reply.error, "Invalid license key"@)),
            trim(key@).len() > 0 && reply.success == Some(true) && reply.instance_id is None
                ==> (r matches Err(m) && m@ == "Licensing server returned no instance"@),
            r is Err ==> final(self).stored == old(self).stored,
            trim(key@).len() > 0 && reply.success == Some(true) && reply.instance_id is Some ==> {
                &&& r matches Ok(st) && st.mode matches LicenseMode::Licensed { status }
                    && status@ == or_text(reply.key_status, "active"@)
                    && final(self).stored.license_status == Some(status)
                &&& final(self).stored.license_key matches Some(k) && k@ == trim(key@)
                &&& final(self).stored.instance_id == reply.instance_id
                &&& final(self).stored.last_validated == Some(now)
                &&& final(self).stored.first_seen == old(self).stored.first_seen
            },
            final(self).locked_notice_sent == old(self).locked_notice_sent,
    {
        let kv = chars_of(key);
        let trimmed = trim_chars(&kv);
        if trimmed.len() == 0 {
            return Err("License key cannot be empty".to_string());
        }
        if reply.success != Some(true) {
            return Err(or_string(reply.error, "Invalid license key"));
        }
        let instance = match reply.instance_id {
            Some(i) => i,
            None => return Err("Licensing server returned no instance".to_string()),
        };
        let status = or_string(reply.key_status, "active");
        self.stored.license_key = Some(string_of(&trimmed));
        self.stored.instance_id = Some(instance);
        self.stored.license_status = Some(status.clone());
        self.stored.last_validated = Some(now);
        Ok(LicenseStatus::new(LicenseMode::Licensed { status }))
    }

    /// Forgets the license on this machine (the trial clock stays).
    pub fn deactivate(&mut self)
        ensures
            final(self).stored.license_key is None,
            final(self).stored.instance_id is None,
            final(self).stored.license_status is None,
            final(self).stored.last_validated is None,
            final(self).stored.first_seen == old(self).stored.first_seen,
            final(self).locked_notice_sent == old(self).locked_notice_sent,
    {
        self.stored.license_key = None;
        self.stored.instance_id = None;
        self.stored.license_status = None;
        self.stored.last_validated = None;
    }

    /// True the first time it is asked, false after: the interface is told
    /// of the lock once.
    pub fn take_locked_notice(&mut self) -> (first: bool)
        ensures
            first == !old(self).locked_notice_sent,
            final(self).locked_notice_sent,
            final(self).stored == old(self).stored,
            forall|n: nat|
                #![trigger notice_answers(old(self).locked_notice_sent, n + 1)]
                notice_answers(old(self).locked_notice_sent, n + 1) == seq![first]
                    + notice_answers(final(self).locked_notice_sent, n),
    {
        if self.locked_notice_sent {
            false
        } else {
            self.locked_notice_sent = true;
            true
        }
    }
}

/// The answers of `n` calls of `take_locked_notice` in a row, made on a
/// state whose notice flag is `sent`.
pub open spec fn notice_answers(sent: bool, n: nat) -> Seq<bool>
    decreases n,
{
    if n == 0 {
        Seq::empty()
    } else {
        seq![!sent] + notice_answers(true, (n - 1) as nat)
    }
}

/// However many times the lock notice is asked for on a new state, only
/// the first answer is true.
pub proof fn law_locked_notice_once(n: nat)
    ensures
        notice_answers(false, n).len() == n,
        forall|i: int| 0 <= i < n ==> #[trigger] notice_answers(false, n)[i] == (i == 0),
{
    lemma_notice_answers_after(n);
    if n > 0 {
        let rest = notice_answers(true, (n - 1) as nat);
        lemma_notice_answers_after((n - 1) as nat);
        assert forall|i: int| 0 <= i < n implies #[trigger] notice_answers(false, n)[i] == (i
            == 0) by {
            if i > 0 {
                assert(notice_answers(false, n)[i] == rest[i - 1]);
            }
        }
    }
}

/// After the flag is set, every answer is false.
proof fn lemma_notice_answers_after(n: nat)
    ensures
        notice_answers(true, n).len() == n,
        notice_answers(false, n).len() == n,
        forall|i: int| 0 <= i < n ==> !(#[trigger] notice_answers(true, n)[i]),
    decreases n,
{
    if n > 0 {
        lemma_notice_answers_after((n - 1) as nat);
        let rest = notice_answers(true, (n - 1) as nat);
        assert forall|i: int| 0 <= i < n implies !(#[trigger] notice_answers(true, n)[i]) by {
            if i > 0 {
                assert(notice_answers(true, n)[i] == rest[i - 1]);
            }
        }
    }
}

} // verus!
