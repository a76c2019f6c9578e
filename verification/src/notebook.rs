//! Which document was opened last.
//!
//! The tablet's app keeps a `<uuid>.metadata` file for each document, and notes
//! in its `lastOpened` field when the document was last opened: a string of
//! epoch milliseconds. The newest of these is the document on the screen.
use vstd::prelude::*;

use crate::chars::{chars_of, string_of};

verus! {

/// Where the tablet's app keeps its documents.
pub const XOCHITL_DATA_DIR: &'static str = "/home/root/.local/share/remarkable/xochitl";

/// What the library reads of a metadata file.
#[derive(Debug)]
pub struct Metadata {
    /// The `lastOpened` field, if the file has one.
    pub last_opened: Option<String>,
}

/// A file in the data directory.
#[derive(Debug)]
pub struct DirectoryEntry {
    /// The name, unless it is not Unicode.
    pub file_name: Option<String>,
    /// The metadata in the file, if it could be read as such.
    pub metadata: Option<Metadata>,
}

/// The number that `c` stands for as a decimal digit.
pub open spec fn digit(c: char) -> int {
    c as int - '0' as int
}

pub open spec fn is_digit(c: char) -> bool {
    '0' <= c <= '9'
}

/// The number written in decimal digits.
pub open spec fn decimal(digits: Seq<char>) -> int
    decreases digits.len(),
{
    if digits.len() == 0 {
        0
    } else {
        decimal(digits.drop_last()) * 10 + digit(digits.last())
    }
}

/// A string without the plus sign that it may start with.
pub open spec fn unsigned_part(s: Seq<char>) -> Seq<char> {
    if s.len() > 0 && s[0] == '+' {
        s.drop_first()
    } else {
        s
    }
}

pub open spec fn all_digits(s: Seq<char>) -> bool {
    forall|i: int| 0 <= i < s.len() ==> is_digit(#[trigger] s[i])
}

/// The number that a string is the decimal form of: digits, at least one, after
/// an optional plus sign, and no more than fit.
pub open spec fn number(s: Seq<char>) -> Option<u64> {
    let digits = unsigned_part(s);
    if digits.len() > 0 && all_digits(digits) && decimal(digits) <= u64::MAX {
        Some(decimal(digits) as u64)
    } else {
        None
    }
}

/// A number does not get smaller by further digits.
proof fn lemma_decimal_grows(digits: Seq<char>, k: int)
    requires
        0 <= k <= digits.len(),
        all_digits(digits),
    ensures
        0 <= decimal(digits.take(k)) <= decimal(digits),
    decreases digits.len() - k, k,
{
    if k == digits.len() {
        assert(digits.take(k) =~= digits);
        if k > 0 {
            let shorter = digits.drop_last();
            assert forall|i: int| 0 <= i < shorter.len() implies is_digit(
                #[trigger] shorter[i],
            ) by {
                assert(digits[i] == shorter[i]);
            }
            lemma_decimal_grows(shorter, k - 1);
            assert(shorter.take(k - 1) =~= shorter);
            assert(is_digit(digits[k - 1]));
        }
    } else {
        lemma_decimal_grows(digits, k + 1);
        assert(digits.take(k + 1).drop_last() =~= digits.take(k));
        assert(is_digit(digits[k]));
        lemma_decimal_not_negative(digits.take(k));
    }
}

proof fn lemma_decimal_not_negative(digits: Seq<char>)
    requires
        all_digits(digits),
    ensures
        0 <= decimal(digits),
    decreases digits.len(),
{
    if digits.len() > 0 {
        assert forall|i: int| 0 <= i < digits.drop_last().len() implies is_digit(
            #[trigger] digits.drop_last()[i],
        ) by {
            assert(digits[i] == digits.drop_last()[i]);
        }
        lemma_decimal_not_negative(digits.drop_last());
        assert(is_digit(digits[digits.len() - 1]));
    }
}

/// Reads a number in decimal form.
pub fn parse_number(s: &str) -> (n: Option<u64>)
    ensures
        n == number(s@),
{
    let chars = chars_of(s);
    let start: usize = if chars.len() > 0 && chars[0] == '+' {
        1
    } else {
        0
    };
    let ghost digits = s@.skip(start as int);
    assert(digits =~= unsigned_part(s@));
    if start == chars.len() {
        return None;
    }
    let mut value: u64 = 0;
    let mut i: usize = start;
    assert(digits.take(0) =~= seq![]);
    while i < chars.len()
        invariant
            chars@ == s@,
            start <= i <= chars@.len(),
            digits == s@.skip(start as int),
            digits == unsigned_part(s@),
            forall|j: int| 0 <= j < i - start ==> is_digit(#[trigger] digits[j]),
            value == decimal(digits.take(i - start)),
        decreases chars@.len() - i,
    {
        let c: char = chars[i];
        assert(digits[i - start] == c);
        if !('0' <= c && c <= '9') {
            return None;
        }
        let d: u64 = (c as u32 - '0' as u32) as u64;
        proof {
            assert(digits.take(i + 1 - start).drop_last() =~= digits.take(i - start));
            assert(decimal(digits.take(i + 1 - start)) == value * 10 + d);
            if value * 10 + d > u64::MAX {
                if all_digits(digits) {
                    lemma_decimal_grows(digits, i + 1 - start);
                }
            }
        }
        if value > u64::MAX / 10 {
            return None;
        }
        if value * 10 > u64::MAX - d {
            return None;
        }
        value = value * 10 + d;
        i = i + 1;
    }
    assert(digits.take(i - start) =~= digits);
    Some(value)
}

/// The ending of a metadata file's name.
pub open spec fn suffix() -> Seq<char> {
    ".metadata"@
}

/// The document that a file name belongs to: what comes before `.metadata`, if
/// it ends so and that is not all.
pub open spec fn uuid_of(file_name: Seq<char>) -> Option<Seq<char>> {
    let n = file_name.len() - suffix().len();
    if n > 0 && file_name.skip(n) == suffix() {
        Some(file_name.take(n))
    } else {
        None
    }
}

/// The document whose metadata is in a file of this name.
pub fn metadata_uuid(file_name: &str) -> (uuid: Option<String>)
    ensures
        match uuid {
            Some(u) => uuid_of(file_name@) == Some(u@),
            None => uuid_of(file_name@) is None,
        },
{
    let name = chars_of(file_name);
    let ending = chars_of(".metadata");
    if name.len() <= ending.len() {
        return None;
    }
    let n: usize = name.len() - ending.len();
    let mut i: usize = 0;
    while i < ending.len()
        invariant
            name@ == file_name@,
            ending@ == suffix(),
            n + ending@.len() == name@.len(),
            i <= ending@.len(),
            forall|j: int| 0 <= j < i ==> name@[n + j] == #[trigger] ending@[j],
        decreases ending@.len() - i,
    {
        assert(n + i < name.len());
        if name[n + i] != ending[i] {
            assert(file_name@.skip(n as int)[i as int] != suffix()[i as int]);
            return None;
        }
        i = i + 1;
    }
    assert(file_name@.skip(n as int) =~= suffix());
    Some(string_of(&name, n))
}

impl DirectoryEntry {
    /// The document that the file is about and when it was last opened, if the
    /// file says so.
    pub open spec fn opened(self) -> Option<(u64, Seq<char>)> {
        match (self.file_name, self.metadata) {
            (Some(name), Some(Metadata { last_opened: Some(text) })) => match (
                uuid_of(name@),
                number(text@),
            ) {
                (Some(uuid), Some(time)) => Some((time, uuid)),
                _ => None,
            },
            _ => None,
        }
    }

    /// When the document was last opened.
    pub open spec fn time(self) -> int {
        match self.opened() {
            Some((time, _)) => time as int,
            None => 0,
        }
    }

    /// The document that the file is about.
    pub open spec fn uuid(self) -> Seq<char> {
        match self.opened() {
            Some((_, uuid)) => uuid,
            None => seq![],
        }
    }

    fn read_opened(&self) -> (opened: Option<(u64, String)>)
        ensures
            match opened {
                Some((time, uuid)) => self.opened() == Some((time, uuid@)),
                None => self.opened() is None,
            },
    {
        match (&self.file_name, &self.metadata) {
            (Some(name), Some(metadata)) => match &metadata.last_opened {
                Some(text) => match (metadata_uuid(name.as_str()), parse_number(text.as_str())) {
                    (Some(uuid), Some(time)) => Some((time, uuid)),
                    _ => None,
                },
                None => None,
            },
            _ => None,
        }
    }
}

/// Whether the document of entry `i` is the one that was opened last; of two
/// that were opened at the same time, the first.
pub open spec fn is_latest(entries: Seq<DirectoryEntry>, i: int) -> bool {
    &&& 0 <= i < entries.len()
    &&& entries[i].opened() is Some
    &&& forall|j: int|
        0 <= j < entries.len() && (#[trigger] entries[j]).opened() is Some
            ==> entries[j].time() <= entries[i].time()
    &&& forall|j: int|
        0 <= j < i && (#[trigger] entries[j]).opened() is Some ==> entries[j].time()
            < entries[i].time()
}

/// What the files of a directory say of the document that was opened last.
pub open spec fn latest(entries: Seq<DirectoryEntry>) -> Option<Seq<char>> {
    if exists|i: int| is_latest(entries, i) {
        Some(entries[choose|i: int| is_latest(entries, i)].uuid())
    } else {
        None
    }
}

/// The document that was opened last, by the files of a directory.
pub fn detect_open_document_in(entries: &Vec<DirectoryEntry>) -> (uuid: Option<String>)
    ensures
        match uuid {
            Some(u) => latest(entries@) == Some(u@) && exists|i: int|
                #[trigger] is_latest(entries@, i) && entries@[i].uuid() == u@,
            None => latest(entries@) is None && forall|i: int|
                0 <= i < entries@.len() ==> (#[trigger] entries@[i]).opened() is None,
        },
{
    let mut best: Option<(u64, String)> = None;
    let mut i: usize = 0;
    let ghost mut at: int = 0;
    while i < entries.len()
        invariant
            i <= entries@.len(),
            match best {
                Some((time, uuid)) => {
                    &&& is_latest(entries@.take(i as int), at)
                    &&& entries@[at].opened() == Some((time, uuid@))
                },
                None => forall|j: int|
                    0 <= j < i ==> (#[trigger] entries@[j]).opened() is None,
            },
        decreases entries@.len() - i,
    {
        let ghost before = entries@.take(i as int);
        let ghost now = entries@.take(i + 1);
        let opened = entries[i].read_opened();
        proof {
            assert forall|j: int| 0 <= j < i implies #[trigger] now[j] == before[j] by {}
        }
        match opened {
            Some((time, uuid)) => {
                let newer = match &best {
                    Some((best_time, _)) => *best_time < time,
                    None => true,
                };
                if newer {
                    best = Some((time, uuid));
                    proof {
                        at = i as int;
                    }
                }
            },
            None => {},
        }
        i = i + 1;
    }
    assert(entries@.take(i as int) =~= entries@);
    match best {
        Some((_, uuid)) => {
            proof {
                law_one_document_is_latest(
                    entries@,
                    at,
                    choose|i: int| is_latest(entries@, i),
                );
            }
            Some(uuid)
        },
        None => None,
    }
}

/// The document that was opened last, by the files of [`XOCHITL_DATA_DIR`];
/// none if the directory could not be listed.
pub fn detect_open_document(listing: &Option<Vec<DirectoryEntry>>) -> (uuid: Option<String>)
    ensures
        match uuid {
            Some(u) => listing matches Some(entries) && latest(entries@) == Some(u@),
            None => listing matches Some(entries) ==> latest(entries@) is None,
        },
{
    match listing {
        Some(entries) => detect_open_document_in(entries),
        None => None,
    }
}

/// One entry at most is the latest.
pub proof fn law_one_document_is_latest(entries: Seq<DirectoryEntry>, i: int, j: int)
    requires
        is_latest(entries, i),
        is_latest(entries, j),
    ensures
        i == j,
{
    assert(entries[i].time() <= entries[j].time());
    assert(entries[j].time() <= entries[i].time());
}

/// A document that was opened after every other is detected, wherever its file
/// comes in the directory.
pub proof fn law_the_newest_document_is_detected(entries: Seq<DirectoryEntry>, i: int)
    requires
        0 <= i < entries.len(),
        entries[i].opened() is Some,
        forall|j: int|
            0 <= j < entries.len() && j != i && (#[trigger] entries[j]).opened() is Some
                ==> entries[j].time() < entries[i].time(),
    ensures
        latest(entries) == Some(entries[i].uuid()),
{
    assert(is_latest(entries, i));
    law_one_document_is_latest(entries, i, choose|k: int| is_latest(entries, k));
}

/// If any document was opened, one of them is the latest.
proof fn lemma_latest_exists(entries: Seq<DirectoryEntry>, i: int) -> (k: int)
    requires
        0 <= i < entries.len(),
        entries[i].opened() is Some,
    ensures
        is_latest(entries, k),
    decreases entries.len(),
{
    let earlier = entries.drop_last();
    let n = earlier.len() as int;
    if exists|j: int| 0 <= j < n && (#[trigger] entries[j]).opened() is Some {
        let j = choose|j: int| 0 <= j < n && (#[trigger] entries[j]).opened() is Some;
        assert(earlier[j] == entries[j]);
        let best = lemma_latest_exists(earlier, j);
        assert forall|m: int| 0 <= m < n implies #[trigger] entries[m] == earlier[m] by {}
        if entries[n].opened() is Some && entries[best].time() < entries[n].time() {
            n
        } else {
            best
        }
    } else {
        assert(i == n);
        n
    }
}

/// Whenever a document was opened, one is detected.
pub proof fn law_an_opened_document_is_detected(entries: Seq<DirectoryEntry>, i: int)
    requires
        0 <= i < entries.len(),
        entries[i].opened() is Some,
    ensures
        latest(entries) is Some,
{
    let k = lemma_latest_exists(entries, i);
    assert(is_latest(entries, k));
}

/// Files that say nothing of a document do not matter: without a document that
/// was ever opened, none is detected.
pub proof fn law_nothing_opened_nothing_detected(entries: Seq<DirectoryEntry>)
    requires
        forall|i: int| 0 <= i < entries.len() ==> (#[trigger] entries[i]).opened() is None,
    ensures
        latest(entries) is None,
{
}

/// Adding a file that says nothing of a document changes nothing.
pub proof fn law_other_files_are_ignored(entries: Seq<DirectoryEntry>, other: DirectoryEntry)
    requires
        other.opened() is None,
    ensures
        latest(entries.push(other)) == latest(entries),
{
    let more = entries.push(other);
    assert forall|i: int| is_latest(entries, i) implies is_latest(more, i) by {
        assert(more[i] == entries[i]);
    }
    assert forall|i: int| is_latest(more, i) implies is_latest(entries, i) by {
        assert(i < entries.len());
        assert forall|j: int| 0 <= j < entries.len() implies #[trigger] entries[j] == more[j] by {}
    }
    if exists|i: int| is_latest(entries, i) {
        let i = choose|i: int| is_latest(entries, i);
        let k = choose|k: int| is_latest(more, k);
        assert(is_latest(more, i));
        law_one_document_is_latest(more, i, k);
    }
}

/// A number is written in decimal digits, the most significant first, after an
/// optional plus sign; what does not fit is no number.
pub proof fn law_numbers_are_decimal(s: Seq<char>, c: char)
    ensures
        number(seq![]) is None,
        number(seq!['+']) is None,
        !(48 <= c as int <= 57) ==> number(s.push(c)) is None,
        48 <= c as int <= 57 ==> number(seq![c]) == Some((c as int - 48) as u64),
        48 <= c as int <= 57 ==> number(seq!['+', c]) == Some((c as int - 48) as u64),
        48 <= c as int <= 57 && s.len() > 0 && s != seq!['+'] ==> number(s.push(c)) == match number(
            s,
        ) {
            Some(n) => if n * 10 + (c as int - 48) <= 0xffff_ffff_ffff_ffff {
                Some((n * 10 + (c as int - 48)) as u64)
            } else {
                None
            },
            None => None,
        },
{
    let more = s.push(c);
    let digits = unsigned_part(more);
    assert(seq!['+'].drop_first() =~= seq![]);
    assert(seq!['+', c].drop_first() =~= seq![c]);
    assert(seq![c].drop_last() =~= seq![]);
    reveal_with_fuel(decimal, 2);
    assert(48 <= c as int <= 57 ==> is_digit(c) && c != '+');
    assert(is_digit(seq![c][0]) <==> is_digit(c));
    if !(48 <= c as int <= 57) {
        if digits.len() > 0 {
            assert(digits[digits.len() - 1] == c);
        }
    }
    if s.len() > 0 && s != seq!['+'] {
        let before = unsigned_part(s);
        assert(before.len() > 0) by {
            if s[0] == '+' && s.len() == 1 {
                assert(s =~= seq!['+']);
            }
        }
        assert(digits =~= before.push(c));
        assert(digits.drop_last() =~= before);
        if all_digits(digits) {
            assert forall|i: int| 0 <= i < before.len() implies is_digit(#[trigger] before[i]) by {
                assert(digits[i] == before[i]);
            }
            lemma_decimal_not_negative(before);
        }
        if all_digits(before) && is_digit(c) {
            assert forall|i: int| 0 <= i < digits.len() implies is_digit(#[trigger] digits[i]) by {
                if i < before.len() {
                    assert(digits[i] == before[i]);
                }
            }
        }
    }
}

/// A metadata file is named for its document, with `.metadata` behind it.
pub proof fn law_metadata_files_are_named_for_their_document(name: Seq<char>, uuid: Seq<char>)
    ensures
        uuid_of(name) == Some(uuid) <==> uuid.len() > 0 && name == uuid + ".metadata"@,
{
    let n = name.len() - suffix().len();
    if uuid_of(name) == Some(uuid) {
        assert(name =~= name.take(n) + name.skip(n));
    }
    if uuid.len() > 0 && name == uuid + ".metadata"@ {
        assert(name.skip(n) =~= ".metadata"@);
        assert(name.take(n) =~= uuid);
    }
}

/// Whether a file says of the document `uuid` that it was opened at `time`: its
/// name is that of the document with `.metadata` behind it, and its
/// `lastOpened` text is the number `time`.
pub open spec fn says(entry: DirectoryEntry, uuid: Seq<char>, time: int) -> bool {
    &&& entry.file_name matches Some(name)
    &&& entry.metadata matches Some(metadata)
    &&& metadata.last_opened matches Some(text)
    &&& uuid.len() > 0 && name@ == uuid + ".metadata"@
    &&& number(text@) matches Some(n)
    &&& n == time
}

/// An entry stands for what its file says.
pub proof fn law_entries_say_when_documents_were_opened(
    entry: DirectoryEntry,
    uuid: Seq<char>,
    time: u64,
)
    ensures
        entry.opened() == Some((time, uuid)) <==> says(entry, uuid, time as int),
{
    if let (Some(name), Some(metadata)) = (entry.file_name, entry.metadata) {
        law_metadata_files_are_named_for_their_document(name@, uuid);
    }
}

/// The document that is detected is one whose file gives the greatest number as
/// its `lastOpened`, the first such file if there are several. None is detected
/// only if no file gives a number for a document.
pub proof fn law_the_greatest_number_is_detected(
    entries: Seq<DirectoryEntry>,
    i: int,
    uuid: Seq<char>,
    time: u64,
)
    requires
        0 <= i < entries.len(),
        says(entries[i], uuid, time as int),
    ensures
        exists|j: int, newest: Seq<char>, greatest: u64|
            #![trigger says(entries[j], newest, greatest as int)]
            0 <= j < entries.len() && says(entries[j], newest, greatest as int) && latest(entries)
                == Some(newest) && time <= greatest && (i < j ==> time < greatest),
{
    law_entries_say_when_documents_were_opened(entries[i], uuid, time);
    law_an_opened_document_is_detected(entries, i);
    let j = choose|j: int| is_latest(entries, j);
    let (greatest, newest) = entries[j].opened()->0;
    law_entries_say_when_documents_were_opened(entries[j], newest, greatest);
    assert(entries[i].time() <= entries[j].time());
    assert(says(entries[j], newest, greatest as int));
}

/// What is detected is said by a file.
pub proof fn law_what_is_detected_is_said(entries: Seq<DirectoryEntry>)
    requires
        latest(entries) is Some,
    ensures
        exists|j: int, time: u64|
            #![trigger says(entries[j], latest(entries)->0, time as int)]
            0 <= j < entries.len() && says(entries[j], latest(entries)->0, time as int),
{
    let j = choose|j: int| is_latest(entries, j);
    let (time, uuid) = entries[j].opened()->0;
    law_entries_say_when_documents_were_opened(entries[j], uuid, time);
    assert(says(entries[j], latest(entries)->0, time as int));
}

} // verus!
