//! Erasing a user: which partitions are rewritten, and how one is, so that no
//! other row is lost on the way.
use vstd::multiset::Multiset;
use vstd::prelude::*;

use crate::compactor::{events_from, Entry};
use crate::event::Stored;
use crate::ingest::Failure;
use crate::text::{chars_of, copy_text, same_text, string_of, strip_prefix, trim};
use crate::text::{has_prefix, is_blank, opt_text, trimmed};
use crate::text::{law_prefix_comes_off, law_trimming_cuts_white_space_only};
use crate::time::{date_text, Date};

verus! {

/// The query of a request to erase a user.
pub struct EraseParams {
    pub product: String,
}

/// Whether a request names a user and a product.
pub open spec fn names_both(user_id: Seq<char>, product: Seq<char>) -> bool {
    trimmed(user_id).len() > 0 && trimmed(product).len() > 0
}

/// Refuses a request that does not name a user and a product.
pub fn check_request(user_id: &str, params: &EraseParams) -> (r: Result<(), Failure>)
    ensures
        match r {
            Ok(_) => names_both(user_id@, params.product@),
            Err(f) => !names_both(user_id@, params.product@) && f.status == 400 && f.message@
                == "user_id and product are required"@,
        },
{
    if trim(user_id).as_str().is_empty() || trim(params.product.as_str()).as_str().is_empty() {
        Err(Failure { status: 400, message: copy_text("user_id and product are required") })
    } else {
        Ok(())
    }
}

/// The answer to a request to erase a user: how many rows were deleted, or
/// that it failed.
pub fn answer(deleted: Option<u64>) -> (r: Result<u64, Failure>)
    ensures
        match deleted {
            Some(n) => r == Ok::<u64, Failure>(n),
            None => r matches Err(f) && f.status == 500 && f.message@ == "internal error"@,
        },
{
    match deleted {
        Some(n) => Ok(n),
        None => Err(Failure { status: 500, message: copy_text("internal error") }),
    }
}

/// The name of the directory of a product.
pub fn product_dir(product: &str) -> (r: String)
    ensures
        r@ == "product="@ + product@,
{
    let mut r = copy_text("product=");
    r.append(product);
    r
}

/// Whether an entry is the partition of a day.
pub open spec fn is_partition(entry: Entry) -> bool {
    entry.is_dir && (entry.name matches Some(name) && has_prefix(name@, "date="@))
}

/// The positions of the entries that are partitions.
pub fn partitions(entries: &[Entry]) -> (r: Vec<usize>)
    ensures
        forall|i: usize| r@.contains(i) <==> i < entries@.len() && is_partition(entries@[i as int]),
        forall|a: int, b: int| 0 <= a < b < r@.len() ==> r@[a] < r@[b],
{
    let mut r: Vec<usize> = Vec::new();
    let mut i: usize = 0;
    while i < entries.len()
        invariant
            i <= entries.len(),
            forall|j: usize| r@.contains(j) <==> j < i && is_partition(entries@[j as int]),
            forall|a: int, b: int| 0 <= a < b < r@.len() ==> r@[a] < r@[b],
            forall|a: int| 0 <= a < r@.len() ==> r@[a] < i,
        decreases entries.len() - i,
    {
        let named: bool = match &entries[i].name {
            None => false,
            Some(name) => strip_prefix(name.as_str(), "date=").is_some(),
        };
        if entries[i].is_dir && named {
            let ghost before = r@;
            r.push(i);
            proof {
                assert forall|j: usize|
                    r@.contains(j) <==> j < i + 1 && is_partition(entries@[j as int]) by {
                    if before.contains(j) {
                        assert(r@[before.index_of(j)] == j);
                    }
                    if j == i {
                        assert(r@[before.len() as int] == i);
                    }
                }
            }
        }
        i += 1;
    }
    r
}

/// The position of the last occurrence of a character; -1 where there is none.
pub open spec fn last_at(s: Seq<char>, c: char) -> int
    decreases s.len(),
{
    if s.len() == 0 {
        -1
    } else if s.last() == c {
        s.len() - 1
    } else {
        last_at(s.drop_last(), c)
    }
}

/// The name of the directory aside for a partition: its name with `rewrite` in
/// place of an extension.
pub open spec fn aside_name(partition: Seq<char>) -> Seq<char> {
    if last_at(partition, '.') > 0 {
        partition.take(last_at(partition, '.')) + ".rewrite"@
    } else {
        partition + ".rewrite"@
    }
}

/// The name of the directory aside for a partition.
pub fn aside_dir(partition: &str) -> (r: String)
    requires
        has_prefix(partition@, "date="@),
    ensures
        r@ == aside_name(partition@),
{
    let x = chars_of(partition);
    let mut n: usize = x.len();
    proof {
        assert(partition@.take(n as int) =~= partition@);
    }
    while n > 0 && x[n - 1] != '.'
        invariant
            n <= x.len(),
            x@ == partition@,
            last_at(partition@, '.') == last_at(partition@.take(n as int), '.'),
        decreases n,
    {
        proof {
            assert(partition@.take(n as int).drop_last() =~= partition@.take(n - 1));
        }
        n -= 1;
    }
    let end: usize = if n > 1 {
        n - 1
    } else {
        x.len()
    };
    let mut front: Vec<char> = Vec::new();
    let mut i: usize = 0;
    while i < end
        invariant
            i <= end <= x.len(),
            front@ == x@.take(i as int),
        decreases end - i,
    {
        front.push(x[i]);
        i += 1;
    }
    let mut r = string_of(front.as_slice());
    r.append(".rewrite");
    proof {
        assert(partition@.take(x.len() as int) =~= partition@);
    }
    r
}

/// The directory aside for a partition of a day is another one. (It is not for
/// one that was itself left aside, and has `rewrite` as its extension.) Its name
/// is that of a partition too.
pub proof fn law_aside_is_another_partition(partition: Seq<char>)
    requires
        has_prefix(partition, "date="@),
        !partition.contains('.'),
    ensures
        aside_name(partition) != partition,
        has_prefix(aside_name(partition), "date="@),
{
    reveal_strlit("date=");
    reveal_strlit(".rewrite");
    lemma_no_last(partition, '.');
    let aside = aside_name(partition);
    assert(aside.len() == partition.len() + 8);
    assert(aside.take(5) =~= partition.take(5));
}

proof fn lemma_no_last(s: Seq<char>, c: char)
    requires
        !s.contains(c),
    ensures
        last_at(s, c) == -1,
    decreases s.len(),
{
    if s.len() > 0 {
        assert(s.contains(s[s.len() - 1]));
        let front = s.drop_last();
        if front.contains(c) {
            let i = front.index_of(c);
            assert(s[i] == c);
        }
        lemma_no_last(front, c);
    }
}

/// The positions of the data files, given the extensions of files: those whose
/// extension is `parquet`.
pub fn data_files(extensions: &[Option<String>]) -> (r: Vec<usize>)
    ensures
        forall|i: usize|
            r@.contains(i) <==> i < extensions@.len() && opt_text(extensions@[i as int]) == Some(
                "parquet"@,
            ),
        forall|a: int, b: int| 0 <= a < b < r@.len() ==> r@[a] < r@[b],
{
    let mut r: Vec<usize> = Vec::new();
    let mut i: usize = 0;
    while i < extensions.len()
        invariant
            i <= extensions.len(),
            forall|j: usize|
                r@.contains(j) <==> j < i && opt_text(extensions@[j as int]) == Some("parquet"@),
            forall|a: int, b: int| 0 <= a < b < r@.len() ==> r@[a] < r@[b],
            forall|a: int| 0 <= a < r@.len() ==> r@[a] < i,
        decreases extensions.len() - i,
    {
        let is_data: bool = match &extensions[i] {
            Some(e) => same_text(e.as_str(), "parquet"),
            None => false,
        };
        if is_data {
            let ghost before = r@;
            r.push(i);
            proof {
                assert forall|j: usize|
                    r@.contains(j) <==> j < i + 1 && opt_text(extensions@[j as int]) == Some(
                        "parquet"@,
                    ) by {
                    if before.contains(j) {
                        assert(r@[before.index_of(j)] == j);
                    }
                    if j == i {
                        assert(r@[before.len() as int] == i);
                    }
                }
            }
        }
        i += 1;
    }
    r
}

/// The sum of numbers.
pub open spec fn sum(counts: Seq<u64>) -> int
    decreases counts.len(),
{
    if counts.len() == 0 {
        0
    } else {
        sum(counts.drop_last()) + counts.last()
    }
}

proof fn lemma_sum_grows(counts: Seq<u64>, n: int)
    requires
        0 <= n <= counts.len(),
    ensures
        0 <= sum(counts.take(n)) <= sum(counts),
    decreases counts.len(),
{
    if n == counts.len() {
        assert(counts.take(n) =~= counts);
        if n > 0 {
            lemma_sum_grows(counts.drop_last(), n - 1);
        }
    } else {
        lemma_sum_grows(counts.drop_last(), n);
        assert(counts.drop_last().take(n) =~= counts.take(n));
    }
}

/// How many rows were deleted in all, given the numbers for the partitions.
pub fn total_deleted(counts: &[u64]) -> (r: u64)
    requires
        sum(counts@) <= u64::MAX,
    ensures
        r == sum(counts@),
{
    let mut r: u64 = 0;
    let mut i: usize = 0;
    while i < counts.len()
        invariant
            i <= counts.len(),
            sum(counts@) <= u64::MAX,
            r == sum(counts@.take(i as int)),
        decreases counts.len() - i,
    {
        proof {
            lemma_sum_grows(counts@, i + 1);
            assert(counts@.take(i + 1).drop_last() =~= counts@.take(i as int));
        }
        r += counts[i];
        i += 1;
    }
    proof {
        assert(counts@.take(i as int) =~= counts@);
    }
    r
}

/// What the rewriting of a partition does next. The rows that stay are written
/// into a directory aside, before any file of the partition is removed.
#[derive(Debug, Clone, Copy, PartialEq, Eq, Structural)]
pub enum Action {
    /// Remove what an earlier attempt has left aside, if there is anything.
    ClearAside,
    /// Make the directory aside.
    CreateAside,
    /// Write the rows that stay into the directory aside.
    WriteAside,
    /// List the data files of the partition.
    ListOld,
    /// Remove one of so many data files of the partition.
    RemoveOld { file: usize, of: usize },
    /// List the data files aside.
    ListNew,
    /// Move one of so many data files from aside into the partition.
    MoveNew { file: usize, of: usize },
    /// Remove the directory aside.
    RemoveAside,
    /// Remove the partition: no row of it stays.
    RemovePartition,
    /// Nothing: it is complete.
    Done,
}

/// What comes first, given how many rows there are and how many stay.
pub open spec fn first_action(total: nat, kept: nat) -> Action {
    if kept == total {
        Action::Done
    } else {
        Action::ClearAside
    }
}

/// What comes once the old files are gone.
pub open spec fn after_old(kept: nat) -> Action {
    if kept > 0 {
        Action::ListNew
    } else {
        Action::RemovePartition
    }
}

/// What comes after an action, given how many rows stay and, after a listing,
/// how many files were listed.
pub open spec fn action_after(action: Action, kept: nat, listed: usize) -> Action {
    match action {
        Action::ClearAside => if kept > 0 {
            Action::CreateAside
        } else {
            Action::ListOld
        },
        Action::CreateAside => Action::WriteAside,
        Action::WriteAside => Action::ListOld,
        Action::ListOld => if listed > 0 {
            Action::RemoveOld { file: 0, of: listed }
        } else {
            after_old(kept)
        },
        Action::RemoveOld { file, of } => if file + 1 < of {
            Action::RemoveOld { file: (file + 1) as usize, of }
        } else {
            after_old(kept)
        },
        Action::ListNew => if listed > 0 {
            Action::MoveNew { file: 0, of: listed }
        } else {
            Action::RemoveAside
        },
        Action::MoveNew { file, of } => if file + 1 < of {
            Action::MoveNew { file: (file + 1) as usize, of }
        } else {
            Action::RemoveAside
        },
        Action::RemoveAside => Action::Done,
        Action::RemovePartition => Action::Done,
        Action::Done => Action::Done,
    }
}

/// The rewriting of a partition. Each of its actions is taken outside; where
/// one fails, it ends there.
#[derive(Debug, Clone, Copy, PartialEq, Eq, Structural)]
pub struct Rewrite {
    total: u64,
    kept: u64,
    action: Action,
}

impl Rewrite {
    #[verifier::type_invariant]
    spec fn is_valid(self) -> bool {
        &&& self.kept <= self.total
        &&& self.action matches Action::RemoveOld { file, of } ==> file < of
        &&& self.action matches Action::MoveNew { file, of } ==> file < of
    }

    /// How many rows the partition has.
    pub closed spec fn rows(self) -> nat {
        self.total as nat
    }

    /// How many of its rows stay.
    pub closed spec fn kept_rows(self) -> nat {
        self.kept as nat
    }

    /// What comes next.
    pub closed spec fn next(self) -> Action {
        self.action
    }

    /// The rewriting of a partition, given how many rows it has and how many of
    /// them stay.
    pub fn new(total: u64, kept: u64) -> (r: Rewrite)
        requires
            kept <= total,
        ensures
            r.rows() == total,
            r.kept_rows() == kept,
            r.next() == first_action(total as nat, kept as nat),
    {
        let action: Action = if kept == total {
            Action::Done
        } else {
            Action::ClearAside
        };
        Rewrite { total, kept, action }
    }

    /// What to do next.
    pub fn action(&self) -> (r: Action)
        ensures
            r == self.next(),
            r matches Action::RemoveOld { file, of } ==> file < of,
            r matches Action::MoveNew { file, of } ==> file < of,
    {
        proof {
            use_type_invariant(self);
        }
        self.action
    }

    /// The rewriting after its next action has succeeded. `listed` is how many
    /// files it has listed, if it was a listing.
    pub fn step(&self, listed: usize) -> (r: Rewrite)
        ensures
            r.rows() == self.rows(),
            r.kept_rows() == self.kept_rows(),
            r.next() == action_after(self.next(), self.kept_rows(), listed),
    {
        proof {
            use_type_invariant(self);
        }
        let after_old: Action = if self.kept > 0 {
            Action::ListNew
        } else {
            Action::RemovePartition
        };
        let action: Action = match self.action {
            Action::ClearAside => if self.kept > 0 {
                Action::CreateAside
            } else {
                Action::ListOld
            },
            Action::CreateAside => Action::WriteAside,
            Action::WriteAside => Action::ListOld,
            Action::ListOld => if listed > 0 {
                Action::RemoveOld { file: 0, of: listed }
            } else {
                after_old
            },
            Action::RemoveOld { file, of } => if file + 1 < of {
                Action::RemoveOld { file: file + 1, of }
            } else {
                after_old
            },
            Action::ListNew => if listed > 0 {
                Action::MoveNew { file: 0, of: listed }
            } else {
                Action::RemoveAside
            },
            Action::MoveNew { file, of } => if file + 1 < of {
                Action::MoveNew { file: file + 1, of }
            } else {
                Action::RemoveAside
            },
            Action::RemoveAside => Action::Done,
            Action::RemovePartition => Action::Done,
            Action::Done => Action::Done,
        };
        Rewrite { total: self.total, kept: self.kept, action }
    }

    /// How many rows the rewriting deletes.
    pub fn deleted(&self) -> (r: u64)
        ensures
            r == self.rows() - self.kept_rows(),
    {
        proof {
            use_type_invariant(self);
        }
        self.total - self.kept
    }
}

/// The rows that stay when a user is erased: those of everyone else.
pub open spec fn without_user(rows: Multiset<Stored>, user: Seq<char>) -> Multiset<Stored> {
    rows.filter(|r: Stored| r.user_id != user)
}

/// A partition on disk: the name of its directory, its data files, of which the
/// first ones may have been removed, and the data files aside, of which the
/// first ones may have been moved into the partition.
pub struct Disk {
    pub name: Seq<char>,
    pub old: Seq<Multiset<Stored>>,
    pub removed: int,
    pub new: Seq<Multiset<Stored>>,
    pub moved: int,
    /// Whether the partition's directory is there.
    pub present: bool,
}

/// The rows of the files up to a position.
pub open spec fn rows_up_to(files: Seq<Multiset<Stored>>, n: int) -> Multiset<Stored>
    decreases n,
{
    if n <= 0 {
        Multiset::empty()
    } else {
        rows_up_to(files, n - 1).add(files[n - 1])
    }
}

impl Disk {
    /// The rows of the partition.
    pub open spec fn rows(self) -> Multiset<Stored> {
        if self.present {
            events_from(self.old, self.removed).add(rows_up_to(self.new, self.moved))
        } else {
            Multiset::empty()
        }
    }

    /// The rows aside.
    pub open spec fn rows_aside(self) -> Multiset<Stored> {
        events_from(self.new, self.moved)
    }

    /// What an action makes of it. `written` are the data files that writing
    /// aside makes.
    pub open spec fn after_action(self, action: Action, written: Seq<Multiset<Stored>>) -> Disk {
        match action {
            Action::ClearAside => Disk { new: Seq::empty(), moved: 0, ..self },
            Action::WriteAside => Disk { new: written, moved: 0, ..self },
            Action::RemoveOld { file, of } => Disk { removed: file + 1, ..self },
            Action::MoveNew { file, of } => Disk { moved: file + 1, ..self },
            Action::RemoveAside => Disk { new: self.new.take(self.moved), ..self },
            Action::RemovePartition => Disk { present: false, ..self },
            _ => self,
        }
    }
}

/// A rewriting: how many rows there are, how many stay, and the data files
/// that writing aside makes.
pub struct Run {
    pub total: nat,
    pub kept: nat,
    pub written: Seq<Multiset<Stored>>,
}

impl Run {
    /// How many files an action lists.
    pub open spec fn listed(self, action: Action, disk: Disk) -> usize {
        match action {
            Action::ListOld => disk.old.len() as usize,
            Action::ListNew => disk.new.len() as usize,
            _ => 0,
        }
    }

    /// What comes next, and what the disk is, after `n` actions.
    pub open spec fn after(self, start: Disk, n: nat) -> (Action, Disk)
        decreases n,
    {
        if n == 0 {
            (first_action(self.total, self.kept), start)
        } else {
            let (action, disk) = self.after(start, (n - 1) as nat);
            (
                action_after(action, self.kept, self.listed(action, disk)),
                disk.after_action(action, self.written),
            )
        }
    }

    /// Whether it is the rewriting of a partition without a user's rows: rows
    /// were counted rightly, and the rows that stay are those written aside.
    /// Where a row goes, the directory aside is another one than that of the
    /// partition.
    pub open spec fn erases(self, start: Disk, user: Seq<char>) -> bool {
        let rows = events_from(start.old, 0);
        let stay = without_user(rows, user);
        &&& self.kept < self.total ==> aside_name(start.name) != start.name
        &&& start.present
        &&& start.removed == 0
        &&& start.moved == 0
        &&& start.old.len() <= usize::MAX
        &&& self.written.len() <= usize::MAX
        &&& self.total == rows.len()
        &&& self.kept == stay.len()
        &&& events_from(self.written, 0) == stay
    }
}

/// The files up to a position and those from it on are all of them.
proof fn lemma_rows_split(files: Seq<Multiset<Stored>>, n: int)
    requires
        0 <= n <= files.len(),
    ensures
        rows_up_to(files, n).add(events_from(files, n)) == events_from(files, 0),
    decreases n,
{
    if n == 0 {
        assert(rows_up_to(files, n).add(events_from(files, n)) =~= events_from(files, 0));
    } else {
        lemma_rows_split(files, n - 1);
        assert(rows_up_to(files, n).add(events_from(files, n)) =~= rows_up_to(files, n - 1).add(
            events_from(files, n - 1),
        ));
    }
}

/// Where the disk stands before each action.
spec fn is_on_the_way(run: Run, start: Disk, action: Action, disk: Disk) -> bool {
    let n_old = start.old.len();
    let n_new = run.written.len();
    let untouched = disk.old == start.old && disk.removed == 0 && disk.present;
    let written = disk.new == run.written && disk.moved == 0;
    let emptied = disk.old == start.old && disk.removed == n_old && disk.present;
    match action {
        Action::ClearAside => untouched && run.kept < run.total,
        Action::CreateAside => untouched && run.kept > 0 && run.kept < run.total,
        Action::WriteAside => untouched && run.kept > 0 && run.kept < run.total,
        Action::ListOld => untouched && run.kept < run.total && (run.kept > 0 ==> written),
        Action::RemoveOld { file, of } => disk.old == start.old && disk.removed == file
            && disk.present && of == n_old && file < of && run.kept < run.total && (run.kept > 0
            ==> written),
        Action::ListNew => emptied && written && run.kept > 0,
        Action::MoveNew { file, of } => emptied && disk.new == run.written && disk.moved == file
            && of == n_new && file < of && run.kept > 0,
        Action::RemoveAside => emptied && disk.new == run.written && disk.moved == n_new && run.kept
            > 0,
        Action::RemovePartition => emptied && run.kept == 0 && run.kept < run.total,
        Action::Done => {
            ||| run.kept == run.total && disk == start
            ||| run.kept > 0 && emptied && disk.new == run.written.take(n_new as int) && disk.moved
                == n_new
            ||| run.kept == 0 && !disk.present
        },
    }
}

proof fn lemma_on_the_way(run: Run, start: Disk, user: Seq<char>, n: nat)
    requires
        run.erases(start, user),
        run.kept <= run.total,
    ensures
        is_on_the_way(run, start, run.after(start, n).0, run.after(start, n).1),
    decreases n,
{
    if n > 0 {
        lemma_on_the_way(run, start, user, (n - 1) as nat);
    }
}

/// No more rows stay than there are, and if all of them do, they are the same.
proof fn lemma_without_user(rows: Multiset<Stored>, user: Seq<char>)
    ensures
        without_user(rows, user).len() <= rows.len(),
        without_user(rows, user).len() == rows.len() ==> without_user(rows, user) == rows,
        without_user(rows, user).len() == 0 ==> without_user(rows, user)
            == Multiset::<Stored>::empty(),
{
    broadcast use vstd::multiset::group_multiset_axioms;

    let stay = without_user(rows, user);
    let go = rows.sub(stay);
    assert(rows =~= stay.add(go));
    assert(rows.len() == stay.len() + go.len());
    if go.len() == 0 {
        vstd::multiset::lemma_multiset_empty_len(go);
        assert(rows =~= stay);
    }
    vstd::multiset::lemma_multiset_empty_len(stay);
}

/// A complete rewriting leaves exactly the rows of everyone but the user, and
/// the number of rows that it deletes is that of the user's.
pub proof fn law_erasure_is_exact(run: Run, start: Disk, user: Seq<char>, n: nat)
    requires
        run.erases(start, user),
        run.after(start, n).0 == Action::Done,
    ensures
        run.after(start, n).1.rows() == without_user(events_from(start.old, 0), user),
        run.total - run.kept == events_from(start.old, 0).filter(
            |r: Stored| r.user_id == user,
        ).len(),
{
    broadcast use vstd::multiset::group_multiset_axioms;

    let rows = events_from(start.old, 0);
    let stay = without_user(rows, user);
    let gone = rows.filter(|r: Stored| r.user_id == user);
    lemma_without_user(rows, user);
    lemma_on_the_way(run, start, user, n);
    let disk = run.after(start, n).1;
    assert(rows =~= stay.add(gone));
    if run.kept == run.total && disk == start {
        assert(rows_up_to(disk.new, 0) =~= Multiset::<Stored>::empty());
        assert(disk.rows() =~= rows);
    } else if run.kept == 0 {
        assert(disk.rows() =~= stay);
    } else {
        lemma_rows_split(run.written, run.written.len() as int);
        assert(run.written.take(run.written.len() as int) =~= run.written);
        assert(events_from(run.written, run.written.len() as int) =~= Multiset::<Stored>::empty());
        assert(events_from(disk.old, disk.removed) =~= Multiset::<Stored>::empty());
        assert(disk.rows() =~= stay);
    }
}

/// At every point of a rewriting, whichever action fails next, the rows that
/// the partition had of everyone but the user are on disk: in the partition or
/// in the directory aside, which has to be another one.
pub proof fn law_erasure_keeps_other_rows(run: Run, start: Disk, user: Seq<char>, n: nat)
    requires
        run.erases(start, user),
    ensures
        ({
            let disk = run.after(start, n).1;
            without_user(events_from(start.old, 0), user).subset_of(
                disk.rows().add(disk.rows_aside()),
            )
        }),
{
    broadcast use vstd::multiset::group_multiset_axioms;

    let rows = events_from(start.old, 0);
    let stay = without_user(rows, user);
    lemma_without_user(rows, user);
    lemma_on_the_way(run, start, user, n);
    let (action, disk) = run.after(start, n);
    assert(stay.subset_of(rows));
    if disk.old == start.old && disk.removed == 0 && disk.present {
        assert(rows.subset_of(disk.rows()));
    } else if run.kept > 0 {
        assert(run.written.take(run.written.len() as int) =~= run.written);
        lemma_rows_split(run.written, disk.moved);
        assert(stay.subset_of(disk.rows().add(disk.rows_aside())));
    }
}

/// How many actions are left at most.
spec fn actions_left(run: Run, start: Disk, action: Action) -> int {
    let n_old = start.old.len() as int;
    let n_new = run.written.len() as int;
    match action {
        Action::ClearAside => 6 + n_new + n_old,
        Action::CreateAside => 5 + n_new + n_old,
        Action::WriteAside => 4 + n_new + n_old,
        Action::ListOld => 3 + n_new + n_old,
        Action::RemoveOld { file, of } => 2 + n_new + (of - file),
        Action::ListNew => 2 + n_new,
        Action::MoveNew { file, of } => 1 + (of - file),
        Action::RemoveAside => 1,
        Action::RemovePartition => 1,
        Action::Done => 0,
    }
}

proof fn lemma_erasure_ends(run: Run, start: Disk, user: Seq<char>, n: nat) -> (m: nat)
    requires
        run.erases(start, user),
        run.kept <= run.total,
    ensures
        run.after(start, m).0 == Action::Done,
    decreases actions_left(run, start, run.after(start, n).0),
{
    lemma_on_the_way(run, start, user, n);
    let (action, disk) = run.after(start, n);
    if action == Action::Done {
        n
    } else {
        assert(run.after(start, n + 1).0 == action_after(
            action,
            run.kept,
            run.listed(action, disk),
        ));
        lemma_erasure_ends(run, start, user, n + 1)
    }
}

/// A rewriting whose actions all succeed comes to its end.
pub proof fn law_erasure_ends(run: Run, start: Disk, user: Seq<char>)
    requires
        run.erases(start, user),
    ensures
        exists|n: nat| (#[trigger] run.after(start, n)).0 == Action::Done,
{
    lemma_without_user(events_from(start.old, 0), user);
    let n = lemma_erasure_ends(run, start, user, 0);
    assert(run.after(start, n).0 == Action::Done);
}

/// The rows of partitions.
pub open spec fn rows_of(disks: Seq<Disk>) -> Multiset<Stored>
    decreases disks.len(),
{
    if disks.len() == 0 {
        Multiset::empty()
    } else {
        rows_of(disks.drop_last()).add(disks.last().rows())
    }
}

/// The partitions of a product, and how each is rewritten to erase a user: as
/// they are before and after, how many rows each rewriting deletes, and how
/// many actions it takes.
pub struct Erasure {
    pub before: Seq<Disk>,
    pub after: Seq<Disk>,
    pub runs: Seq<Run>,
    pub steps: Seq<nat>,
    pub deleted: Seq<u64>,
}

impl Erasure {
    /// Whether every partition is rewritten to the end without the user's rows,
    /// and none of them is the directory aside of one that loses a row.
    pub open spec fn complete(self, user: Seq<char>) -> bool {
        &&& self.after.len() == self.before.len()
        &&& self.runs.len() == self.before.len()
        &&& self.steps.len() == self.before.len()
        &&& self.deleted.len() == self.before.len()
        &&& forall|i: int| 0 <= i < self.before.len() ==> #[trigger] self.rewrites(i, user)
        &&& forall|i: int, j: int|
            0 <= i < self.before.len() && 0 <= j < self.before.len() && self.runs[i].kept
                < self.runs[i].total ==> (#[trigger] self.before[j]).name != aside_name(
                (#[trigger] self.before[i]).name,
            )
    }

    /// Whether a partition is rewritten to the end without the user's rows.
    pub open spec fn rewrites(self, i: int, user: Seq<char>) -> bool {
        &&& self.runs[i].erases(self.before[i], user)
        &&& self.runs[i].after(self.before[i], self.steps[i]) == (Action::Done, self.after[i])
        &&& self.deleted[i] == self.runs[i].total - self.runs[i].kept
    }

    /// All but the last partition.
    pub open spec fn front(self) -> Erasure {
        Erasure {
            before: self.before.drop_last(),
            after: self.after.drop_last(),
            runs: self.runs.drop_last(),
            steps: self.steps.drop_last(),
            deleted: self.deleted.drop_last(),
        }
    }
}

/// The rows of a user of a product.
pub open spec fn rows_to_erase(
    rows: Multiset<Stored>,
    product: Seq<char>,
    user: Seq<char>,
) -> Multiset<Stored> {
    rows.filter(|r: Stored| r.product == product && r.user_id == user)
}

/// The rows of a partition as they are on disk.
proof fn lemma_rows_at_rest(disk: Disk)
    requires
        disk.present,
        disk.removed == 0,
        disk.moved == 0,
    ensures
        disk.rows() == events_from(disk.old, 0),
{
    assert(disk.rows() =~= events_from(disk.old, 0));
}

proof fn lemma_all_partitions(e: Erasure, user: Seq<char>)
    requires
        e.complete(user),
    ensures
        rows_of(e.after) == without_user(rows_of(e.before), user),
        sum(e.deleted) == rows_of(e.before).filter(|r: Stored| r.user_id == user).len(),
    decreases e.before.len(),
{
    broadcast use vstd::multiset::group_multiset_axioms;

    let stays = |r: Stored| r.user_id != user;
    let goes = |r: Stored| r.user_id == user;
    if e.before.len() == 0 {
        assert(rows_of(e.after) =~= without_user(rows_of(e.before), user));
        assert(rows_of(e.before).filter(goes) =~= Multiset::<Stored>::empty());
    } else {
        let front = e.front();
        let i = e.before.len() - 1;
        assert forall|j: int| 0 <= j < front.before.len() implies #[trigger] front.rewrites(
            j,
            user,
        ) by {
            assert(e.rewrites(j, user));
        }
        lemma_all_partitions(front, user);
        assert(e.rewrites(i, user));
        let disk = e.before[i];
        law_erasure_is_exact(e.runs[i], disk, user, e.steps[i]);
        lemma_rows_at_rest(disk);
        let (a, b) = (rows_of(front.before), disk.rows());
        assert(a.add(b).filter(stays) =~= a.filter(stays).add(b.filter(stays)));
        assert(a.add(b).filter(goes) =~= a.filter(goes).add(b.filter(goes)));
        assert(rows_of(e.after) =~= without_user(rows_of(e.before), user));
    }
}

/// Erasing a user of a product, partition by partition, deletes as many rows as
/// the user has in the product, and leaves all others: those of other users,
/// and those of other products, which no rewriting touches. `others` are the
/// rows of the other products. A product without partitions has nothing to
/// delete.
pub proof fn law_erasure_of_a_product(
    e: Erasure,
    others: Multiset<Stored>,
    product: Seq<char>,
    user: Seq<char>,
)
    requires
        e.complete(user),
        forall|r: Stored| rows_of(e.before).contains(r) ==> #[trigger] r.product == product,
        forall|r: Stored| others.contains(r) ==> #[trigger] r.product != product,
    ensures
        ({
            let rows = rows_of(e.before).add(others);
            &&& sum(e.deleted) == rows_to_erase(rows, product, user).len()
            &&& rows_of(e.after).add(others) == rows.sub(rows_to_erase(rows, product, user))
            &&& rows_of(e.after) == without_user(rows_of(e.before), user)
            &&& e.before.len() == 0 ==> sum(e.deleted) == 0
        }),
{
    broadcast use vstd::multiset::group_multiset_axioms;

    lemma_all_partitions(e, user);
    let own = rows_of(e.before);
    let rows = own.add(others);
    let goes = |r: Stored| r.user_id == user;
    let erased = rows_to_erase(rows, product, user);
    assert forall|r: Stored| #[trigger] erased.count(r) == own.filter(goes).count(r) by {
        if own.count(r) > 0 {
            assert(own.contains(r));
            assert(r.product == product);
        }
        if others.count(r) > 0 {
            assert(others.contains(r));
            assert(r.product != product);
        }
    }
    assert(erased =~= own.filter(goes));
    assert(rows_of(e.after).add(others) =~= rows.sub(erased));
}

/// Directories of different products have different names.
pub proof fn law_products_have_directories_of_their_own(a: Seq<char>, b: Seq<char>)
    requires
        "product="@ + a == "product="@ + b,
    ensures
        a == b,
{
    let n = "product="@.len() as int;
    assert(a =~= ("product="@ + a).skip(n));
    assert(b =~= ("product="@ + b).skip(n));
}

/// Erasing a user who has no rows, as after an erasure, deletes nothing: no
/// action is taken, and every partition stays as it is.
pub proof fn law_second_erasure_deletes_nothing(e: Erasure, user: Seq<char>)
    requires
        e.complete(user),
        rows_of(e.before) == without_user(rows_of(e.before), user),
    ensures
        e.after == e.before,
        sum(e.deleted) == 0,
    decreases e.before.len(),
{
    broadcast use vstd::multiset::group_multiset_axioms;

    let goes = |r: Stored| r.user_id == user;
    lemma_all_partitions(e, user);
    assert(rows_of(e.before).filter(goes) =~= Multiset::<Stored>::empty()) by {
        let rows = rows_of(e.before);
        assert forall|r: Stored| #[trigger] rows.filter(goes).count(r) == 0 by {
            if r.user_id == user {
                assert(without_user(rows, user).count(r) == 0);
            }
        }
    }
    if e.before.len() > 0 {
        let front = e.front();
        let i = e.before.len() - 1;
        let disk = e.before[i];
        let (a, b) = (rows_of(front.before), disk.rows());
        assert forall|j: int| 0 <= j < front.before.len() implies #[trigger] front.rewrites(
            j,
            user,
        ) by {
            assert(e.rewrites(j, user));
        }
        assert forall|r: Stored| (a.count(r) > 0 || b.count(r) > 0) implies #[trigger] r.user_id
            != user by {
            if r.user_id == user {
                assert(without_user(a.add(b), user).count(r) == 0);
            }
        }
        assert(a =~= without_user(a, user));
        law_second_erasure_deletes_nothing(front, user);
        assert(e.rewrites(i, user));
        lemma_rows_at_rest(disk);
        assert(b =~= without_user(b, user));
        let run = e.runs[i];
        lemma_nothing_happens(run, disk, e.steps[i]);
        assert forall|j: int| 0 <= j < e.after.len() implies #[trigger] e.after[j]
            == e.before[j] by {
            if j < i {
                assert(front.after[j] == front.before[j]);
            }
        }
        assert(e.after =~= e.before);
    } else {
        assert(e.after =~= e.before);
    }
}

proof fn lemma_nothing_happens(run: Run, start: Disk, n: nat)
    requires
        run.total == run.kept,
    ensures
        run.after(start, n) == (Action::Done, start),
    decreases n,
{
    if n > 0 {
        lemma_nothing_happens(run, start, (n - 1) as nat);
    }
}

/// A directory whose name is `date=` and anything behind it, a day among them,
/// is a partition; nothing else is.
pub proof fn law_every_day_has_its_partition(entry: Entry, rest: Seq<char>, day: Date)
    ensures
        entry.is_dir && (entry.name matches Some(name) && name@ == "date="@ + rest)
            ==> is_partition(entry),
        entry.is_dir && (entry.name matches Some(name) && name@ == "date="@ + date_text(day))
            ==> is_partition(entry),
        is_partition(entry) ==> entry.is_dir && (entry.name matches Some(name) && name@
            == "date="@ + name@.skip(5)),
{
    reveal_strlit("date=");
    if entry.name is Some {
        law_prefix_comes_off(entry.name->0@, "date="@, rest);
        law_prefix_comes_off(entry.name->0@, "date="@, date_text(day));
    }
}

/// A request is refused exactly if its user or its product is nothing but
/// white space.
pub proof fn law_requests_name_user_and_product(user_id: Seq<char>, product: Seq<char>)
    ensures
        names_both(user_id, product) <==> !is_blank(user_id) && !is_blank(product),
{
    let _ = law_trimming_cuts_white_space_only(user_id);
    let _ = law_trimming_cuts_white_space_only(product);
}

/// The directory aside has the name of the partition, up to the last dot behind
/// its start if there is one, and `.rewrite` behind it.
pub proof fn law_aside_is_named_after_the_partition(a: Seq<char>, b: Seq<char>)
    requires
        !b.contains('.'),
    ensures
        aside_name(b) == b + ".rewrite"@,
        a.len() > 0 ==> aside_name(a + seq!['.'] + b) == a + ".rewrite"@,
{
    lemma_no_last(b, '.');
    let whole = a + seq!['.'] + b;
    lemma_last(a, b, '.');
    assert(whole.take(a.len() as int) =~= a);
}

proof fn lemma_last(a: Seq<char>, b: Seq<char>, c: char)
    requires
        !b.contains(c),
    ensures
        last_at(a + seq![c] + b, c) == a.len(),
    decreases b.len(),
{
    let whole = a + seq![c] + b;
    if b.len() > 0 {
        let front = b.drop_last();
        assert(b.contains(b.last()));
        assert forall|i: int| 0 <= i < front.len() implies front[i] != c by {
            assert(b.contains(b[i]));
        }
        lemma_last(a, front, c);
        assert(whole.drop_last() =~= a + seq![c] + front);
    }
}

/// What is deleted in some partitions and in others is deleted in all of them.
pub proof fn law_deletions_add_up(a: Seq<u64>, b: Seq<u64>, n: u64)
    ensures
        sum(a + b) == sum(a) + sum(b),
        sum(seq![n]) == n,
        sum(Seq::<u64>::empty()) == 0,
    decreases b.len(),
{
    reveal_with_fuel(sum, 2);
    assert(seq![n].drop_last() =~= Seq::<u64>::empty());
    if b.len() == 0 {
        assert(a + b =~= a);
    } else {
        law_deletions_add_up(a, b.drop_last(), n);
        assert((a + b).drop_last() =~= a + b.drop_last());
    }
}

/// A rewriting that has rows to erase clears what is left aside, writes the
/// rows that stay aside if there are any, removes the old files one by one, and
/// at last moves the new files in and removes the directory aside, or removes
/// the partition if nothing stays.
pub proof fn law_rewriting_goes_in_order(run: Run, start: Disk, user: Seq<char>, n: nat)
    requires
        run.erases(start, user),
        run.kept < run.total,
    ensures
        ({
            let old = start.old.len() as usize;
            let new = run.written.len() as usize;
            let action = run.after(start, n).0;
            if run.kept > 0 {
                &&& n == 0 ==> action == Action::ClearAside
                &&& n == 1 ==> action == Action::CreateAside
                &&& n == 2 ==> action == Action::WriteAside
                &&& n == 3 ==> action == Action::ListOld
                &&& 4 <= n < 4 + old ==> action == (Action::RemoveOld {
                    file: (n - 4) as usize,
                    of: old,
                })
                &&& n == 4 + old ==> action == Action::ListNew
                &&& 5 + old <= n < 5 + old + new ==> action == (Action::MoveNew {
                    file: (n - 5 - old) as usize,
                    of: new,
                })
                &&& n == 5 + old + new ==> action == Action::RemoveAside
                &&& n > 5 + old + new ==> action == Action::Done
            } else {
                &&& n == 0 ==> action == Action::ClearAside
                &&& n == 1 ==> action == Action::ListOld
                &&& 2 <= n < 2 + old ==> action == (Action::RemoveOld {
                    file: (n - 2) as usize,
                    of: old,
                })
                &&& n == 2 + old ==> action == Action::RemovePartition
                &&& n > 2 + old ==> action == Action::Done
            }
        }),
        run.after(start, n).1.old == start.old,
        run.kept > 0 && 3 <= n <= 5 + start.old.len() + run.written.len() ==> run.after(
            start,
            n,
        ).1.new == run.written,
    decreases n,
{
    if n > 0 {
        law_rewriting_goes_in_order(run, start, user, (n - 1) as nat);
    }
}

/// Where a partition has no row of the user, its rewriting is over before it
/// starts.
pub proof fn law_nothing_to_erase_is_done(total: nat, kept: nat)
    ensures
        first_action(total, kept) == Action::Done <==> kept == total,
        kept != total ==> first_action(total, kept) == Action::ClearAside,
{
}

/// Whatever a directory holds, the partitions in it are its directories with
/// `date=` in front of their names, whatever the day: none is left out, and
/// nothing else is taken for one.
pub proof fn law_no_partition_is_left_out(
    entries: &[Entry],
    r: Vec<usize>,
    i: usize,
    day: Seq<char>,
)
    requires
        call_ensures(partitions, (entries,), r),
    ensures
        i < entries@.len() && entries@[i as int].is_dir && (
        entries@[i as int].name matches Some(name) && name@ == "date="@ + day) ==> r@.contains(i),
        r@.contains(i) ==> i < entries@.len() && entries@[i as int].is_dir && (
        entries@[i as int].name matches Some(name) && name@ == "date="@ + name@.skip(5)),
        forall|a: int, b: int| 0 <= a < b < r@.len() ==> r@[a] < r@[b],
{
    reveal_strlit("date=");
    if i < entries@.len() && entries@[i as int].name is Some {
        law_prefix_comes_off(entries@[i as int].name->0@, "date="@, day);
    }
}

/// The data files are those whose extension is `parquet`, all of them.
pub proof fn law_data_files_are_parquet(
    extensions: &[Option<String>],
    r: Vec<usize>,
    i: usize,
)
    requires
        call_ensures(data_files, (extensions,), r),
    ensures
        r@.contains(i) <==> i < extensions@.len() && (extensions@[i as int] matches Some(e) && e@
            == "parquet"@),
        forall|a: int, b: int| 0 <= a < b < r@.len() ==> r@[a] < r@[b],
{
}

/// What was deleted in all is the sum over the partitions, and it is what is
/// answered; a failure is answered with status 500.
pub proof fn law_deletions_are_answered(
    counts: &[u64],
    total: u64,
    deleted: Option<u64>,
    r: Result<u64, Failure>,
)
    requires
        call_ensures(total_deleted, (counts,), total),
        call_ensures(answer, (deleted,), r),
    ensures
        total == sum(counts@),
        deleted matches Some(n) ==> r == Ok::<u64, Failure>(n),
        deleted is None ==> (r matches Err(f) && f.status == 500 && f.message@
            == "internal error"@),
{
}

/// A request is let through exactly if it names a user and a product with more
/// than white space; any other is answered with status 400.
pub proof fn law_blank_requests_are_refused(
    user_id: &str,
    params: &EraseParams,
    r: Result<(), Failure>,
)
    requires
        call_ensures(check_request, (user_id, params), r),
    ensures
        r is Ok <==> !is_blank(user_id@) && !is_blank(params.product@),
        r matches Err(f) ==> f.status == 400 && f.message@ == "user_id and product are required"@,
{
    law_requests_name_user_and_product(user_id@, params.product@);
}

/// The directory of a product and the one aside for a partition are named after
/// them.
pub proof fn law_directories_are_named(product: &str, r: String, partition: &str, aside: String)
    requires
        call_ensures(product_dir, (product,), r),
        call_ensures(aside_dir, (partition,), aside),
    ensures
        r@ == "product="@ + product@,
        !partition@.contains('.') ==> aside@ == partition@ + ".rewrite"@,
{
    if !partition@.contains('.') {
        law_aside_is_named_after_the_partition(Seq::empty(), partition@);
    }
}

/// A rewriting starts, goes on and ends with the rows that it was made for, and
/// deletes those that do not stay.
pub proof fn law_rewriting_keeps_its_numbers(
    total: u64,
    kept: u64,
    new: Rewrite,
    listed: usize,
    next: Rewrite,
    deleted: u64,
)
    requires
        kept <= total,
        call_ensures(Rewrite::new, (total, kept), new),
        call_ensures(Rewrite::step, (&new, listed), next),
        call_ensures(Rewrite::deleted, (&next,), deleted),
    ensures
        deleted == total - kept,
        new.next() == Action::Done <==> total == kept,
        total != kept ==> new.next() == Action::ClearAside && next.next() == (if kept > 0 {
            Action::CreateAside
        } else {
            Action::ListOld
        }),
{
}

} // verus!
