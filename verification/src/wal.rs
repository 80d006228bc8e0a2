//! The log of accepted events: how its files are named, what is in them, and
//! when one is sealed.
use vstd::prelude::*;
use vstd::utf8::encode_utf8;

use crate::config::{join_path, path_in};
use crate::event::{law_line_reads_back, law_lines_are_plain, Stored};
use crate::json::{is_plain, paired, read_object};
use crate::query::column_names;
use crate::seal::{is_sealed_name, law_names_hold_their_time, seal_time, sealed_name, SealTime};
use crate::text::texts;
use crate::time::{millis_of, Instant};

verus! {

/// The bytes of the log for lines: each line, then a line end.
pub open spec fn framed(lines: Seq<Seq<char>>) -> Seq<u8>
    decreases lines.len(),
{
    if lines.len() == 0 {
        Seq::empty()
    } else {
        framed(lines.drop_last()) + encode_utf8(lines.last()) + seq![10u8]
    }
}

/// The bytes that are appended to the log for lines.
pub fn frame(lines: &[String]) -> (r: Vec<u8>)
    ensures
        r@ == framed(texts(lines@)),
{
    let ghost all = texts(lines@);
    let mut buf: Vec<u8> = Vec::new();
    let mut i: usize = 0;
    proof {
        assert(all.take(0) =~= Seq::<Seq<char>>::empty());
    }
    while i < lines.len()
        invariant
            i <= lines.len(),
            all == texts(lines@),
            buf@ == framed(all.take(i as int)),
        decreases lines.len() - i,
    {
        let ghost before = buf@;
        let line = lines[i].as_str().as_bytes();
        buf.extend_from_slice(line);
        proof {
            assert(buf@ =~= before + line@);
            assert(all.take(i + 1).drop_last() =~= all.take(i as int));
            assert(all.take(i + 1).last() == all[i as int]);
        }
        buf.push(10);
        proof {
            assert(buf@ =~= before + line@ + seq![10u8]);
        }
        i += 1;
    }
    proof {
        assert(all.take(i as int) =~= all);
    }
    buf
}

/// Two batches, one after the other, leave the log as one batch of all their
/// lines would.
pub proof fn law_batches_follow_each_other(a: Seq<Seq<char>>, b: Seq<Seq<char>>)
    ensures
        framed(a + b) == framed(a) + framed(b),
    decreases b.len(),
{
    if b.len() == 0 {
        assert(a + b =~= a);
        assert(framed(a) + framed(b) =~= framed(a));
    } else {
        law_batches_follow_each_other(a, b.drop_last());
        assert((a + b).drop_last() =~= a + b.drop_last());
        assert((a + b).last() == b.last());
        assert(framed(a + b) =~= framed(a) + framed(b));
    }
}

/// The lines of a log, and what stands behind its last line end.
pub open spec fn log_parts(log: Seq<u8>) -> (Seq<Seq<u8>>, Seq<u8>)
    decreases log.len(),
{
    if log.len() == 0 {
        (Seq::empty(), Seq::empty())
    } else {
        let (lines, tail) = log_parts(log.drop_last());
        if log.last() == 10 {
            (lines.push(tail), Seq::empty())
        } else {
            (lines, tail.push(log.last()))
        }
    }
}

proof fn lemma_char_is_no_line_end(c: char)
    requires
        c as int >= 32,
    ensures
        forall|i: int|
            0 <= i < vstd::utf8::encode_scalar(c as u32).len()
                ==> #[trigger] vstd::utf8::encode_scalar(c as u32)[i] != 10,
{
    let scalar = c as u32;
    assert(scalar >= 32 && scalar <= 0x7f ==> (scalar & 0x7F) as u8 != 10) by (bit_vector);
    assert(0xC0 | ((scalar >> 6) & 0x1F) as u8 != 10) by (bit_vector);
    assert(0xE0 | ((scalar >> 12) & 0x0F) as u8 != 10) by (bit_vector);
    assert(0xF0 | ((scalar >> 18) & 0x7) as u8 != 10) by (bit_vector);
    assert(0x80 | (scalar & 0x3F) as u8 != 10) by (bit_vector);
    assert(0x80 | ((scalar >> 6) & 0x3F) as u8 != 10) by (bit_vector);
    assert(0x80 | ((scalar >> 12) & 0x3F) as u8 != 10) by (bit_vector);
}

/// The bytes of a text without control characters hold no line end.
proof fn lemma_no_line_end(s: Seq<char>)
    requires
        is_plain(s),
    ensures
        forall|i: int| 0 <= i < encode_utf8(s).len() ==> #[trigger] encode_utf8(s)[i] != 10,
    decreases s.len(),
{
    if s.len() > 0 {
        let rest = s.drop_first();
        assert(s[0] as int >= 32);
        assert forall|i: int| 0 <= i < rest.len() implies (#[trigger] rest[i] as int) >= 32 by {
            assert(rest[i] == s[i + 1]);
        }
        lemma_char_is_no_line_end(s[0]);
        lemma_no_line_end(rest);
        let first = vstd::utf8::encode_scalar(s[0] as u32);
        let all = encode_utf8(s);
        assert(all == first + encode_utf8(rest));
        assert forall|i: int| 0 <= i < all.len() implies #[trigger] all[i] != 10 by {
            if i < first.len() {
                assert(all[i] == first[i]);
            } else {
                assert(all[i] == encode_utf8(rest)[i - first.len()]);
            }
        }
    }
}

proof fn lemma_log_grows(log: Seq<u8>, more: Seq<u8>)
    requires
        forall|i: int| 0 <= i < more.len() ==> #[trigger] more[i] != 10,
    ensures
        log_parts(log + more) == (log_parts(log).0, log_parts(log).1 + more),
    decreases more.len(),
{
    if more.len() == 0 {
        assert(log + more =~= log);
        assert(log_parts(log).1 + more =~= log_parts(log).1);
    } else {
        let front = more.drop_last();
        lemma_log_grows(log, front);
        assert((log + more).drop_last() =~= log + front);
        assert((log + more).last() == more.last());
        assert(log_parts(log).1 + more =~= (log_parts(log).1 + front).push(more.last()));
    }
}

proof fn lemma_log_line(log: Seq<u8>, line: Seq<u8>)
    requires
        log_parts(log).1 == Seq::<u8>::empty(),
        forall|i: int| 0 <= i < line.len() ==> #[trigger] line[i] != 10,
    ensures
        log_parts(log + line + seq![10u8]) == (log_parts(log).0.push(line), Seq::<u8>::empty()),
{
    lemma_log_grows(log, line);
    let all = log + line + seq![10u8];
    assert(all.drop_last() =~= log + line);
    assert(Seq::<u8>::empty() + line =~= line);
}

/// The bytes of each of the lines.
pub open spec fn encoded(lines: Seq<Seq<char>>) -> Seq<Seq<u8>> {
    Seq::new(lines.len(), |i: int| encode_utf8(lines[i]))
}

/// A log that was written from lines without control characters reads back as
/// those lines, with nothing behind the last.
pub proof fn law_log_reads_back(lines: Seq<Seq<char>>)
    requires
        forall|i: int| 0 <= i < lines.len() ==> is_plain(#[trigger] lines[i]),
    ensures
        log_parts(framed(lines)) == (encoded(lines), Seq::<u8>::empty()),
    decreases lines.len(),
{
    if lines.len() == 0 {
        assert(encoded(lines) =~= Seq::<Seq<u8>>::empty());
    } else {
        let front = lines.drop_last();
        let line = encode_utf8(lines.last());
        assert forall|i: int| 0 <= i < front.len() implies is_plain(#[trigger] front[i]) by {
            assert(front[i] == lines[i]);
        }
        law_log_reads_back(front);
        assert(is_plain(lines[lines.len() - 1]));
        lemma_no_line_end(lines.last());
        lemma_log_line(framed(front), line);
        assert(encoded(lines) =~= encoded(front).push(line));
    }
}

/// The lines of events.
pub open spec fn event_lines(events: Seq<Stored>) -> Seq<Seq<char>> {
    Seq::new(events.len(), |i: int| events[i].line())
}

/// A log that was written from events reads back as those events: it has a
/// line for each, in order, and reading the line gives every column of the
/// table the text that the event has for it.
pub proof fn law_logged_events_read_back(events: Seq<Stored>, i: int)
    requires
        0 <= i < events.len(),
    ensures
        ({
            let lines = log_parts(framed(event_lines(events))).0;
            &&& lines.len() == events.len()
            &&& read_object(vstd::utf8::decode_utf8(lines[i]), 11) == Some(
                paired(column_names(), events[i].columns()),
            )
        }),
{
    let lines = event_lines(events);
    assert forall|j: int| 0 <= j < lines.len() implies is_plain(#[trigger] lines[j]) by {
        law_lines_are_plain(events[j]);
    }
    law_log_reads_back(lines);
    law_line_reads_back(events[i]);
    vstd::utf8::encode_utf8_decode_utf8(events[i].line());
}

/// The path of the file that lines are appended to.
pub fn current_path(dir: &str) -> (r: String)
    ensures
        r@ == path_in(dir@, "current.ndjson"@),
{
    join_path(dir, "current.ndjson")
}

/// Whether a name is the next under which a file is sealed, at a time in
/// milliseconds, beside files with the given names: it holds the time, or, if
/// there is a file that was sealed no earlier, the millisecond after the last
/// of those.
pub open spec fn is_next_name(name: Seq<char>, millis: int, names: Seq<Seq<char>>) -> bool {
    exists|m: int|
        m >= millis && name == #[trigger] sealed_name(m) && is_next_time(m, millis, names)
}

/// Whether a time comes after those of all sealed files, and is no later than
/// it has to be.
pub open spec fn is_next_time(m: int, millis: int, names: Seq<Seq<char>>) -> bool {
    &&& forall|k: int| names.contains(#[trigger] sealed_name(k)) ==> k < m
    &&& m == millis || names.contains(sealed_name(m - 1))
}

/// The name under which the current file is sealed, beside files with the
/// given names; `None` where it is empty and stays as it is. No file has the
/// name, and none was sealed later.
pub fn seal_as(current_len: u64, now: &Instant, names: &[String]) -> (r: Option<String>)
    ensures
        match r {
            None => current_len == 0,
            Some(name) => current_len > 0 && !texts(names@).contains(name@) && exists|m: int|
                m >= millis_of(now.seconds(), now.nanoseconds()) && name@ == #[trigger] sealed_name(
                    m,
                ) && (forall|k: int| texts(names@).contains(#[trigger] sealed_name(k)) ==> k < m),
        },
        r matches Some(name) ==> is_next_name(
            name@,
            millis_of(now.seconds(), now.nanoseconds()),
            texts(names@),
        ),
{
    if current_len == 0 {
        return None;
    }
    let ghost all = texts(names@);
    let ghost millis = millis_of(now.seconds(), now.nanoseconds());
    let mut time = SealTime::at(now.timestamp_millis());
    let mut i: usize = 0;
    proof {
        assert(all.take(0) =~= Seq::<Seq<char>>::empty());
    }
    while i < names.len()
        invariant
            i <= names.len(),
            all == texts(names@),
            -9_000_000_000_000_000 < millis,
            time.valid(),
            time.value() >= millis,
            forall|k: int|
                all.take(i as int).contains(#[trigger] sealed_name(k)) ==> k < time.value(),
            time.value() == millis || all.contains(sealed_name(time.value() - 1)),
        decreases names.len() - i,
    {
        let ghost name = all[i as int];
        proof {
            assert(all.contains(name));
            assert forall|k: int| all.take(i + 1).contains(#[trigger] sealed_name(k)) implies (
            all.take(i as int).contains(sealed_name(k)) || seal_time(name) == Some(k)) by {
                let j = all.take(i + 1).index_of(sealed_name(k));
                if j < i {
                    assert(all.take(i as int)[j] == sealed_name(k));
                } else {
                    law_names_hold_their_time(k);
                }
            }
        }
        match SealTime::of_name(names[i].as_str()) {
            None => {},
            Some(taken) => {
                proof {
                    assert(name == sealed_name(taken.value()));
                }
                if !taken.before(&time) {
                    time = taken.next();
                }
            },
        }
        i += 1;
    }
    proof {
        let m = time.value();
        assert(all.take(i as int) =~= all);
        assert(!all.contains(sealed_name(m)));
        assert(is_next_time(m, millis, all));
    }
    Some(time.name())
}

/// The files of the log: the one that is written to, and the sealed ones.
pub struct Files {
    pub current: Seq<u8>,
    pub sealed: Map<Seq<char>, Seq<u8>>,
}

impl Files {
    /// The files after lines were appended.
    pub open spec fn appended(self, lines: Seq<Seq<char>>) -> Files {
        Files { current: self.current + framed(lines), ..self }
    }

    /// The files after the current one was sealed under a name, if it is not
    /// empty. Renaming replaces a file of that name.
    pub open spec fn rotated(self, name: Seq<char>) -> Files {
        if self.current.len() > 0 {
            Files { current: Seq::empty(), sealed: self.sealed.insert(name, self.current) }
        } else {
            self
        }
    }

    /// Whether the names of the directory's files have those of the sealed
    /// ones among them, and no others that look like one.
    pub open spec fn has_names(self, names: Seq<Seq<char>>) -> bool {
        forall|n: Seq<char>| #[trigger]
            is_sealed_name(n) ==> (names.contains(n) <==> self.sealed.dom().contains(n))
    }
}

/// Sealing moves the current file as it is, to a name that no file has, and
/// leaves the sealed ones as they are, whatever the clock says. The current
/// file is empty then; an empty one is not sealed, so sealing once more changes
/// nothing.
pub proof fn law_sealing_keeps_every_line(
    files: Files,
    names: Seq<Seq<char>>,
    millis: int,
    name: Seq<char>,
    next: Seq<char>,
)
    requires
        files.has_names(names),
        is_next_name(name, millis, names),
    ensures
        !files.sealed.dom().contains(name),
        files.rotated(name).current.len() == 0,
        files.current.len() == 0 ==> files.rotated(name) == files,
        files.current.len() > 0 ==> files.rotated(name).sealed.remove(name) == files.sealed
            && files.rotated(name).sealed.dom().contains(name) && files.rotated(name).sealed[name]
            == files.current,
        files.rotated(name).rotated(next) == files.rotated(name),
        files.current.len() > 0 ==> files.rotated(name).has_names(names.push(name)),
{
    let m = choose|m: int|
        m >= millis && name == #[trigger] sealed_name(m) && is_next_time(m, millis, names);
    law_names_hold_their_time(m);
    assert(is_sealed_name(name));
    if names.contains(name) {
        assert(names.contains(sealed_name(m)));
    }
    if files.current.len() > 0 {
        let after = files.rotated(name);
        assert(after.sealed.remove(name) =~= files.sealed);
        let more = names.push(name);
        assert forall|n: Seq<char>| #[trigger] is_sealed_name(n) implies (more.contains(n)
            <==> after.sealed.dom().contains(n)) by {
            if names.contains(n) {
                assert(more[names.index_of(n)] == n);
            }
            if n == name {
                assert(more[names.len() as int] == n);
            }
            if more.contains(n) && n != name {
                let i = more.index_of(n);
                assert(names[i] == n);
            }
        }
    }
}

/// What is appended after a file was sealed stands in the new current file
/// alone: the sealed file no longer changes.
pub proof fn law_sealed_files_do_not_change(files: Files, lines: Seq<Seq<char>>)
    ensures
        files.appended(lines).sealed == files.sealed,
        files.current.len() == 0 ==> files.appended(lines).current == framed(lines),
{
    if files.current.len() == 0 {
        assert(files.appended(lines).current =~= framed(lines));
    }
}

/// A line stands in the log as its bytes and a line end, whatever it holds.
pub proof fn law_lines_are_framed_by_line_ends(line: Seq<char>)
    ensures
        framed(Seq::empty()).len() == 0,
        framed(seq![line]) == encode_utf8(line).push(10u8),
{
    reveal_with_fuel(framed, 2);
    assert(seq![line].drop_last() =~= Seq::<Seq<char>>::empty());
    assert(framed(seq![line]) =~= encode_utf8(line).push(10u8));
}

/// A file is sealed under the time itself, or, if a file was sealed at that
/// time or later, under the millisecond after the last of those.
pub proof fn law_files_are_sealed_under_the_time(
    name: Seq<char>,
    millis: int,
    names: Seq<Seq<char>>,
    last: int,
)
    requires
        is_next_name(name, millis, names),
    ensures
        (forall|k: int| names.contains(#[trigger] sealed_name(k)) ==> k < millis) ==> name
            == sealed_name(millis),
        last >= millis && names.contains(sealed_name(last)) && (forall|k: int|
            names.contains(#[trigger] sealed_name(k)) ==> k <= last) ==> name == sealed_name(
            last + 1,
        ),
{
    let m = choose|m: int|
        m >= millis && name == #[trigger] sealed_name(m) && is_next_time(m, millis, names);
    assert(is_next_time(m, millis, names));
    if m != millis {
        assert(names.contains(sealed_name(m - 1)));
    }
}

/// The bytes for the log read back as the lines, where these hold no control
/// characters; an empty file is never sealed, and any other under a name that
/// no file has, not before its time.
pub proof fn law_lines_are_appended_and_sealed(
    lines: &[String],
    bytes: Vec<u8>,
    dir: &str,
    path: String,
    len: u64,
    now: &Instant,
    names: &[String],
    name: Option<String>,
)
    requires
        call_ensures(frame, (lines,), bytes),
        call_ensures(current_path, (dir,), path),
        call_ensures(seal_as, (len, now, names), name),
        forall|i: int| 0 <= i < lines@.len() ==> is_plain((#[trigger] lines@[i])@),
    ensures
        log_parts(bytes@) == (encoded(texts(lines@)), Seq::<u8>::empty()),
        dir@.len() > 0 && dir@.last() != '/' ==> path@ == dir@ + "/"@ + "current.ndjson"@,
        name is Some <==> len > 0,
        name matches Some(n) ==> !texts(names@).contains(n@) && exists|m: int|
            m >= now.seconds() * 1000 + now.nanoseconds() / 1_000_000 && n@ == #[trigger]
            sealed_name(m),
        name matches Some(n) ==> ((forall|k: int|
            texts(names@).contains(#[trigger] sealed_name(k)) ==> k < now.seconds() * 1000
                + now.nanoseconds() / 1_000_000) ==> n@ == sealed_name(
            now.seconds() * 1000 + now.nanoseconds() / 1_000_000,
        )),
{
    let all = texts(lines@);
    assert forall|i: int| 0 <= i < all.len() implies is_plain(#[trigger] all[i]) by {
        assert(all[i] == lines@[i]@);
    }
    law_log_reads_back(all);
    if name is Some {
        let millis = millis_of(now.seconds(), now.nanoseconds());
        law_files_are_sealed_under_the_time(name->0@, millis, texts(names@), millis);
    }
}

} // verus!
