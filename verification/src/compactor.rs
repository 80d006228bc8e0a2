//! Moving events from the log into partitions, and dropping old partitions.
use vstd::multiset::Multiset;
use vstd::prelude::*;

use crate::text::{after_prefix, has_prefix, law_prefix_comes_off, lex_lt, opt_text};
use crate::text::{strip_prefix, text_before};
use crate::time::{date_of, date_text, day_of, days_back, has_plain_year, Instant};
use crate::time::law_dates_sort_by_day;

verus! {

/// What a compaction does next.
#[derive(Debug, Clone, Copy, PartialEq, Eq, Structural)]
pub enum Phase {
    /// Read the lines of the sealed files.
    Read,
    /// Take the lock that keeps queries out.
    Lock,
    /// Write the events that were read into partitions.
    Write,
    /// Remove the sealed file with this number.
    Remove(usize),
    /// Nothing: it is complete, and the lock is given back.
    Done,
}

/// A compaction of sealed files. Each of its steps is taken outside; where one
/// fails, the compaction ends there and gives back the lock.
#[derive(Debug, Clone, Copy, PartialEq, Eq, Structural)]
pub struct Compaction {
    files: usize,
    phase: Phase,
}

/// What a compaction of so many files does first.
pub open spec fn first_phase(files: nat) -> Phase {
    if files == 0 {
        Phase::Done
    } else {
        Phase::Read
    }
}

/// What a compaction of so many files does after a step has succeeded.
pub open spec fn phase_after(phase: Phase, files: nat) -> Phase {
    match phase {
        Phase::Read => Phase::Lock,
        Phase::Lock => Phase::Write,
        Phase::Write => Phase::Remove(0),
        Phase::Remove(i) => if i + 1 < files {
            Phase::Remove((i + 1) as usize)
        } else {
            Phase::Done
        },
        Phase::Done => Phase::Done,
    }
}

/// What a compaction of so many files does after `n` steps.
pub open spec fn phase_at(files: nat, n: nat) -> Phase
    decreases n,
{
    if n == 0 {
        first_phase(files)
    } else {
        phase_after(phase_at(files, (n - 1) as nat), files)
    }
}

impl Compaction {
    #[verifier::type_invariant]
    spec fn is_valid(self) -> bool {
        &&& self.files == 0 ==> self.phase == Phase::Done
        &&& self.phase matches Phase::Remove(i) ==> i < self.files
    }

    /// How many sealed files there are.
    pub closed spec fn file_count(self) -> nat {
        self.files as nat
    }

    /// What comes next.
    pub closed spec fn next(self) -> Phase {
        self.phase
    }

    /// The compaction of so many sealed files.
    pub fn new(files: usize) -> (r: Compaction)
        ensures
            r.file_count() == files,
            r.next() == first_phase(files as nat),
    {
        if files == 0 {
            Compaction { files, phase: Phase::Done }
        } else {
            Compaction { files, phase: Phase::Read }
        }
    }

    /// What to do next. A number of a file that it names is that of one.
    pub fn phase(&self) -> (r: Phase)
        ensures
            r == self.next(),
            r matches Phase::Remove(i) ==> i < self.file_count(),
    {
        proof {
            use_type_invariant(self);
        }
        self.phase
    }

    /// The compaction after its next step has succeeded.
    pub fn step(&self) -> (r: Compaction)
        ensures
            r.file_count() == self.file_count(),
            r.next() == phase_after(self.next(), self.file_count()),
    {
        proof {
            use_type_invariant(self);
        }
        let phase: Phase = match self.phase {
            Phase::Read => Phase::Lock,
            Phase::Lock => Phase::Write,
            Phase::Write => Phase::Remove(0),
            Phase::Remove(i) => if i + 1 < self.files {
                Phase::Remove(i + 1)
            } else {
                Phase::Done
            },
            Phase::Done => Phase::Done,
        };
        Compaction { files: self.files, phase }
    }

    /// How many sealed files were compacted, once it is complete.
    pub fn compacted(&self) -> (r: usize)
        ensures
            r == self.file_count(),
    {
        self.files
    }
}

/// Whether the lock that keeps queries out is held during a step.
pub open spec fn holds_lock(phase: Phase) -> bool {
    phase is Write || phase is Remove
}

/// Where events are stored: in partitions, and in sealed files, of which the
/// first ones may have been removed.
pub struct Tiers<E> {
    pub partitions: Multiset<E>,
    pub files: Seq<Multiset<E>>,
    pub removed: int,
}

/// The events of the files from a position on.
pub open spec fn events_from<E>(files: Seq<Multiset<E>>, i: int) -> Multiset<E>
    decreases files.len() - i,
{
    if i >= files.len() {
        Multiset::empty()
    } else {
        files[i].add(events_from(files, i + 1))
    }
}

impl<E> Tiers<E> {
    /// The events that a query sees.
    pub open spec fn visible(self) -> Multiset<E> {
        self.partitions.add(events_from(self.files, self.removed))
    }

    /// Them with some more events in partitions.
    pub open spec fn with(self, part: Multiset<E>) -> Tiers<E> {
        Tiers { partitions: self.partitions.add(part), ..self }
    }

    /// What a step makes of them.
    pub open spec fn after_step(self, phase: Phase) -> Tiers<E> {
        match phase {
            Phase::Write => Tiers {
                partitions: self.partitions.add(events_from(self.files, 0)),
                ..self
            },
            Phase::Remove(i) => Tiers { removed: i + 1, ..self },
            _ => self,
        }
    }

    /// What the first `n` steps of a compaction make of them.
    pub open spec fn after_steps(self, n: nat) -> Tiers<E>
        decreases n,
    {
        if n == 0 {
            self
        } else {
            let m = (n - 1) as nat;
            self.after_steps(m).after_step(phase_at(self.files.len(), m))
        }
    }
}

proof fn lemma_compaction<E>(start: Tiers<E>, n: nat)
    requires
        start.removed == 0,
        start.files.len() <= usize::MAX,
    ensures
        ({
            let now = start.after_steps(n);
            let all = start.partitions.add(events_from(start.files, 0));
            &&& now.files == start.files
            &&& match phase_at(start.files.len(), n) {
                Phase::Read | Phase::Lock | Phase::Write => now == start && start.files.len() > 0,
                Phase::Remove(i) => i < start.files.len() && now.partitions == all && now.removed
                    == i,
                Phase::Done => (start.files.len() == 0 && now == start) || (now.partitions == all
                    && now.removed == start.files.len()),
            }
        }),
    decreases n,
{
    if n > 0 {
        lemma_compaction(start, (n - 1) as nat);
    }
}

/// As long as no step of a compaction fails: at every point at which queries
/// are not kept out, they see what they saw before it. No event is missing, and
/// none is there twice.
pub proof fn law_queries_see_every_event_once<E>(start: Tiers<E>, n: nat)
    requires
        start.removed == 0,
        start.files.len() <= usize::MAX,
        !holds_lock(phase_at(start.files.len(), n)),
    ensures
        start.after_steps(n).visible() == start.visible(),
{
    lemma_compaction(start, n);
    let now = start.after_steps(n);
    if now.removed == start.files.len() {
        assert(events_from(now.files, now.removed) =~= Multiset::<E>::empty());
        assert(now.visible() =~= start.visible());
    }
}

/// Where a step fails, the compaction ends and gives back the lock, so queries
/// see what the steps before it have left. Before the write that is what they
/// saw at the start. A write that fails adds the part of the events that it has
/// written: those are there twice. Where the removal of a file fails, its
/// events and those of the files after it are there twice; all others are there
/// once.
pub proof fn law_failed_steps_lose_no_event<E>(start: Tiers<E>, n: nat, part: Multiset<E>)
    requires
        start.removed == 0,
        start.files.len() <= usize::MAX,
    ensures
        ({
            let now = start.after_steps(n);
            match phase_at(start.files.len(), n) {
                Phase::Read | Phase::Lock | Phase::Done => now.visible() == start.visible(),
                Phase::Write => now.visible() == start.visible() && now.with(part).visible()
                    == start.visible().add(part),
                Phase::Remove(i) => now.visible() == start.visible().add(
                    events_from(start.files, i as int),
                ),
            }
        }),
{
    lemma_compaction(start, n);
    let now = start.after_steps(n);
    match phase_at(start.files.len(), n) {
        Phase::Write => {
            assert(now.with(part).visible() =~= start.visible().add(part));
        },
        Phase::Done => {
            law_queries_see_every_event_once(start, n);
        },
        _ => {},
    }
}

/// Wherever a compaction ends, no event is lost.
pub proof fn law_compaction_loses_no_event<E>(start: Tiers<E>, n: nat)
    requires
        start.removed == 0,
        start.files.len() <= usize::MAX,
    ensures
        start.visible().subset_of(start.after_steps(n).visible()),
{
    lemma_compaction(start, n);
}

/// A compaction is complete after three steps and one for each file. The
/// sealed files are gone then, and all their events are in partitions.
pub proof fn law_compaction_moves_every_event<E>(start: Tiers<E>)
    requires
        start.removed == 0,
        0 < start.files.len() <= usize::MAX,
    ensures
        ({
            let n = (start.files.len() + 3) as nat;
            &&& phase_at(start.files.len(), n) == Phase::Done
            &&& start.after_steps(n).removed == start.files.len()
            &&& start.after_steps(n).partitions == start.partitions.add(
                events_from(start.files, 0),
            )
        }),
{
    let files = start.files.len();
    lemma_phase_of_removal(files, (files - 1) as nat);
    lemma_compaction(start, (files + 3) as nat);
    assert(phase_at(files, (files + 3) as nat) == phase_after(
        phase_at(files, (files + 2) as nat),
        files,
    ));
}

proof fn lemma_phase_of_removal(files: nat, i: nat)
    requires
        i < files <= usize::MAX,
    ensures
        phase_at(files, i + 3) == Phase::Remove(i as usize),
    decreases i,
{
    reveal_with_fuel(phase_at, 4);
    if i > 0 {
        lemma_phase_of_removal(files, (i - 1) as nat);
    }
}

/// An entry of a directory. Its name is `None` where it is not Unicode.
pub struct Entry {
    pub name: Option<String>,
    pub is_dir: bool,
}

/// The day that partitions have to reach to stay, as `YYYY-MM-DD`; `None`
/// where partitions stay for ever.
pub open spec fn cutoff(now: Instant, ttl_days: int) -> Option<Seq<char>> {
    if ttl_days <= 0 {
        None
    } else {
        Some(date_text(date_of(day_of(days_back(now, ttl_days)))))
    }
}

/// The day that partitions have to reach to stay.
pub fn ttl_cutoff(now: &Instant, ttl_days: i64) -> (r: Option<String>)
    requires
        ttl_days > 0 ==> days_back(*now, ttl_days as int) >= -8_334_601_228_800,
    ensures
        opt_text(r) == cutoff(*now, ttl_days as int),
{
    if ttl_days <= 0 {
        return None;
    }
    match now.minus_days(ttl_days) {
        Some(t) => Some(t.date()),
        None => None,
    }
}

/// Whether an entry is a partition of a day before the cutoff.
pub open spec fn is_expired(entry: Entry, cutoff: Seq<char>) -> bool {
    entry.is_dir && (entry.name matches Some(name) && (after_prefix(name@, "date="@) matches Some(
        date,
    ) && lex_lt(date, cutoff)))
}

/// The positions of the entries that are partitions of a day before the
/// cutoff.
pub fn expired_partitions(entries: &[Entry], cutoff: &str) -> (r: Vec<usize>)
    ensures
        forall|i: usize|
            r@.contains(i) <==> i < entries@.len() && is_expired(entries@[i as int], cutoff@),
        forall|a: int, b: int| 0 <= a < b < r@.len() ==> r@[a] < r@[b],
{
    let mut r: Vec<usize> = Vec::new();
    let mut i: usize = 0;
    while i < entries.len()
        invariant
            i <= entries.len(),
            forall|j: usize|
                r@.contains(j) <==> j < i && is_expired(entries@[j as int], cutoff@),
            forall|a: int, b: int| 0 <= a < b < r@.len() ==> r@[a] < r@[b],
            forall|a: int| 0 <= a < r@.len() ==> r@[a] < i,
        decreases entries.len() - i,
    {
        let expired: bool = match &entries[i].name {
            None => false,
            Some(name) => match strip_prefix(name.as_str(), "date=") {
                None => false,
                Some(date) => entries[i].is_dir && text_before(date.as_str(), cutoff),
            },
        };
        if expired {
            let ghost before = r@;
            r.push(i);
            proof {
                assert(r@.last() == i);
                assert forall|j: usize|
                    r@.contains(j) <==> j < i + 1 && is_expired(entries@[j as int], cutoff@) by {
                    if before.contains(j) {
                        assert(r@[before.index_of(j)] == j);
                    }
                    if j == i {
                        assert(r@[before.len() as int] == i);
                    }
                }
            }
        }
        i += 1;
    }
    r
}

/// Of the partitions of days in four-digit years, those are dropped whose day
/// comes before the day that lies so many days back.
pub proof fn law_ttl_drops_older_days(now: Instant, ttl_days: int, day: int, entry: Entry)
    requires
        ttl_days > 0,
        has_plain_year(day),
        has_plain_year(days_back(now, ttl_days)),
        entry.is_dir,
        entry.name matches Some(name) && name@ == "date="@ + date_text(date_of(day_of(day))),
    ensures
        is_expired(entry, cutoff(now, ttl_days)->0) <==> day_of(day) < day_of(
            days_back(now, ttl_days),
        ),
{
    let date = date_text(date_of(day_of(day)));
    let name = "date="@ + date;
    assert(name.take("date="@.len() as int) =~= "date="@);
    assert(name.skip("date="@.len() as int) =~= date);
    law_dates_sort_by_day(day, days_back(now, ttl_days));
}

/// A compaction reads, takes the lock, writes, and removes each file in turn;
/// then it is done. Where there are no files it is done at once.
pub proof fn law_compaction_goes_in_order(files: nat, n: nat)
    requires
        files <= usize::MAX,
    ensures
        files == 0 ==> phase_at(files, n) == Phase::Done,
        files > 0 && n == 0 ==> phase_at(files, n) == Phase::Read,
        files > 0 && n == 1 ==> phase_at(files, n) == Phase::Lock,
        files > 0 && n == 2 ==> phase_at(files, n) == Phase::Write,
        files > 0 && 3 <= n < files + 3 ==> phase_at(files, n) == Phase::Remove((n - 3) as usize),
        files > 0 && n >= files + 3 ==> phase_at(files, n) == Phase::Done,
    decreases n,
{
    if n > 0 {
        law_compaction_goes_in_order(files, (n - 1) as nat);
    }
}

/// An entry has expired exactly if it is a directory whose name is `date=` and
/// a text before the cutoff.
pub proof fn law_what_expires(entry: Entry, date: Seq<char>, cutoff: Seq<char>)
    ensures
        entry.is_dir && (entry.name matches Some(name) && name@ == "date="@ + date) ==> (
        is_expired(entry, cutoff) <==> lex_lt(date, cutoff)),
        is_expired(entry, cutoff) ==> entry.is_dir && (entry.name matches Some(name) && name@
            == "date="@ + name@.skip(5) && lex_lt(name@.skip(5), cutoff)),
{
    reveal_strlit("date=");
    if entry.name is Some {
        law_prefix_comes_off(entry.name->0@, "date="@, date);
        assert(has_prefix(entry.name->0@, "date="@) ==> after_prefix(entry.name->0@, "date="@)
            == Some(entry.name->0@.skip(5)));
    }
}

/// The cutoff is the day that lies so many days before today, and there is one
/// exactly if the days are more than none. A leap second counts as the second
/// after it.
pub proof fn law_cutoff_lies_days_back(now: Instant, ttl_days: int)
    requires
        0 <= now.nanoseconds() < 2_000_000_000,
    ensures
        ttl_days <= 0 ==> cutoff(now, ttl_days) is None,
        ttl_days > 0 ==> ({
            let secs = if now.nanoseconds() < 1_000_000_000 {
                now.seconds()
            } else {
                now.seconds() + 1
            };
            cutoff(now, ttl_days) == Some(date_text(date_of(secs / 86_400 - ttl_days)))
        }),
{
    let secs = if now.nanoseconds() < 1_000_000_000 {
        now.seconds()
    } else {
        now.seconds() + 1
    };
    assert(days_back(now, ttl_days) == secs - ttl_days * 86_400);
    assert((secs - ttl_days * 86_400) / 86_400 == secs / 86_400 - ttl_days);
}

/// Whatever a directory holds, what expires in it are its directories with
/// `date=` and a date before the cutoff for their names: all of them, and
/// nothing else.
pub proof fn law_no_expired_partition_stays(
    entries: &[Entry],
    cutoff: &str,
    r: Vec<usize>,
    i: usize,
    date: Seq<char>,
)
    requires
        call_ensures(expired_partitions, (entries, cutoff), r),
    ensures
        i < entries@.len() && entries@[i as int].is_dir && (
        entries@[i as int].name matches Some(name) && name@ == "date="@ + date) ==> (r@.contains(i)
            <==> lex_lt(date, cutoff@)),
        r@.contains(i) ==> i < entries@.len() && entries@[i as int].is_dir && (
        entries@[i as int].name matches Some(name) && name@ == "date="@ + name@.skip(5) && lex_lt(
            name@.skip(5),
            cutoff@,
        )),
        forall|a: int, b: int| 0 <= a < b < r@.len() ==> r@[a] < r@[b],
{
    if i < entries@.len() {
        law_what_expires(entries@[i as int], date, cutoff@);
    }
}

/// A compaction starts with reading unless there are no files, goes on to the
/// lock, and tells the number of its files throughout.
pub proof fn law_compactions_keep_their_files(
    files: usize,
    new: Compaction,
    first: Phase,
    next: Compaction,
    second: Phase,
    compacted: usize,
)
    requires
        call_ensures(Compaction::new, (files,), new),
        call_ensures(Compaction::phase, (&new,), first),
        call_ensures(Compaction::step, (&new,), next),
        call_ensures(Compaction::phase, (&next,), second),
        call_ensures(Compaction::compacted, (&next,), compacted),
    ensures
        compacted == files,
        files == 0 ==> first == Phase::Done && second == Phase::Done,
        files > 0 ==> first == Phase::Read && second == Phase::Lock,
{
}

/// The cutoff is the date of the day that lies so many days back; there is none
/// where partitions stay for ever.
pub proof fn law_cutoffs_are_dates(now: &Instant, ttl_days: i64, r: Option<String>)
    requires
        call_ensures(ttl_cutoff, (now, ttl_days), r),
        0 <= now.nanoseconds() < 1_000_000_000,
    ensures
        ttl_days <= 0 ==> r is None,
        ttl_days > 0 ==> (r matches Some(date) && date@ == date_text(
            date_of(now.seconds() / 86_400 - ttl_days),
        )),
{
    law_cutoff_lies_days_back(*now, ttl_days as int);
}

} // verus!
