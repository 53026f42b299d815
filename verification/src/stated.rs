//! Turning the paths found into display records: name, extension, path, size
//! and time of the last change, all as text.

use vstd::prelude::*;
use vstd::arithmetic::div_mod::lemma_div_is_ordered_by_denominator;
use crate::paths::{extension, extension_of, file_name, file_name_of};
use crate::setup::YamlConfiguration;
use crate::text::{decimal, digit, digit_char, push_decimal, string_of};

verus! {

/// `1024` to the power `e`.
pub open spec fn unit_size(e: nat) -> nat
    decreases e,
{
    if e == 0 {
        1
    } else {
        1024 * unit_size((e - 1) as nat)
    }
}

/// How often `bytes` can be divided by 1024 before it falls below 1024: the
/// whole part of its binary logarithm divided by ten.
pub open spec fn magnitude(bytes: nat) -> nat
    decreases bytes,
{
    if bytes < 1024 {
        0
    } else {
        1 + magnitude(bytes / 1024)
    }
}

/// The magnitude that a size of at least 1024 bytes is shown in; there is no
/// unit beyond the sixth.
pub open spec fn unit_index(bytes: nat) -> nat {
    if magnitude(bytes) > 6 {
        6
    } else {
        magnitude(bytes)
    }
}

/// The letter of the unit of magnitude `e`, from `K` for the first to `E` for
/// the sixth.
pub open spec fn unit_letter(e: nat) -> char {
    if e == 1 {
        'K'
    } else if e == 2 {
        'M'
    } else if e == 3 {
        'G'
    } else if e == 4 {
        'T'
    } else if e == 5 {
        'P'
    } else {
        'E'
    }
}

/// `bytes` in tenths of `unit`, rounded to the nearest tenth, and to the even
/// one where two are equally near.
pub open spec fn rounded_tenths(bytes: nat, unit: nat) -> nat {
    let whole = (bytes * 10) / unit;
    let rest = (bytes * 10) % unit;
    if 2 * rest > unit || (2 * rest == unit && whole % 2 == 1) {
        whole + 1
    } else {
        whole
    }
}

/// A size as people read it: the number of bytes and ` B` below 1024, and from
/// there on the size in units of its magnitude with one decimal place, the
/// unit's letter and `B`, as in `1.5 MB`.
pub open spec fn human_readable(bytes: nat) -> Seq<char> {
    if bytes < 1024 {
        decimal(bytes) + seq![' ', 'B']
    } else {
        let e = unit_index(bytes);
        let tenths = rounded_tenths(bytes, unit_size(e));
        decimal(tenths / 10) + seq!['.', digit_char((tenths % 10) as int), ' ', unit_letter(e), 'B']
    }
}

/// A size lies between the unit of its magnitude and the next unit.
pub proof fn lemma_magnitude_bounds(bytes: nat)
    requires
        bytes >= 1,
    ensures
        unit_size(magnitude(bytes)) <= bytes < unit_size(magnitude(bytes) + 1),
    decreases bytes,
{
    if bytes >= 1024 {
        lemma_magnitude_bounds(bytes / 1024);
    }
}

/// The letter of the unit of magnitude `e`.
pub fn unit_letter_of(e: u64) -> (letter: char)
    requires
        1 <= e <= 6,
    ensures
        letter == unit_letter(e as nat),
{
    if e == 1 {
        'K'
    } else if e == 2 {
        'M'
    } else if e == 3 {
        'G'
    } else if e == 4 {
        'T'
    } else if e == 5 {
        'P'
    } else {
        'E'
    }
}

/// A size as people read it.
pub fn convert_bytes_to_human_readable(bytes: u64) -> (text: String)
    ensures
        text@ == human_readable(bytes as nat),
{
    let mut out: Vec<char> = Vec::new();
    if bytes < 1024 {
        push_decimal(&mut out, bytes);
        out.push(' ');
        out.push('B');
        assert(out@ =~= human_readable(bytes as nat));
        return string_of(&out);
    }
    let mut e: u64 = 0;
    let mut unit: u64 = 1;
    let mut rest: u64 = bytes;
    while e < 6 && rest >= 1024
        invariant
            e <= 6,
            unit == unit_size(e as nat),
            unit <= 0x1000_0000_0000_0000,
            magnitude(bytes as nat) == e + magnitude(rest as nat),
        decreases 6 - e,
    {
        proof {
            reveal_with_fuel(unit_size, 7);
        }
        rest = rest / 1024;
        unit = unit * 1024;
        e = e + 1;
    }
    assert(e == unit_index(bytes as nat));
    assert(unit >= 1024) by {
        reveal_with_fuel(unit_size, 7);
    }
    let scaled: u128 = (bytes as u128) * 10;
    let whole: u128 = scaled / (unit as u128);
    let left: u128 = scaled % (unit as u128);
    assert(whole <= 0x0280_0000_0000_0000) by {
        lemma_div_is_ordered_by_denominator(scaled as int, 1024, unit as int);
    }
    let tenths: u64 = if 2 * left > (unit as u128) || (2 * left == (unit as u128) && whole % 2
        == 1) {
        (whole + 1) as u64
    } else {
        whole as u64
    };
    assert(tenths == rounded_tenths(bytes as nat, unit_size(e as nat)));
    push_decimal(&mut out, tenths / 10);
    out.push('.');
    out.push(digit(tenths % 10));
    out.push(' ');
    out.push(unit_letter_of(e));
    out.push('B');
    assert(out@ =~= human_readable(bytes as nat));
    string_of(&out)
}

/// What a look at a file's metadata gave: its size in bytes, and the time of
/// its last change as seconds and nanoseconds since the start of 1970.
#[derive(Debug, Clone, Copy)]
pub struct FileStat {
    pub len: u64,
    pub modified_secs: u64,
    pub modified_nanos: u32,
}

/// The last second that can be shown as a date: the end of the year 262142.
pub const LAST_SECOND: u64 = 8_210_266_876_799;

impl FileStat {
    /// Whether the time of the last change can be shown as a date.
    pub open spec fn shows(&self) -> bool {
        self.modified_secs <= LAST_SECOND && self.modified_nanos < 1_000_000_000
    }

    /// Whether the time of the last change can be shown as a date.
    pub fn can_show(&self) -> (shown: bool)
        ensures
            shown == self.shows(),
    {
        self.modified_secs <= LAST_SECOND && self.modified_nanos < 1_000_000_000
    }
}

/// The date and time, on this machine's clock, of the moment `secs` seconds
/// and `nanos` nanoseconds after the start of 1970: what `chrono`'s
/// `timestamp_opt` gives for the time zone `Local`, unwrapped and written
/// out by `to_string`. The text follows the machine's time zone, so all that
/// is said of it is that it is not empty: whatever the zone, `chrono` writes
/// the local date and time, a blank and the offset. For a moment that
/// `chrono` cannot hold, which is one behind the year 262142 or one with a
/// thousand million nanoseconds or more, there is nothing to unwrap and the
/// call panics; such a moment is left out.
#[verifier::external_body]
fn local_time_text(secs: u64, nanos: u32) -> (text: String)
    requires
        secs <= LAST_SECOND,
        nanos < 1_000_000_000,
    ensures
        text@.len() > 0,
{
    chrono::TimeZone::timestamp_opt(&chrono::Local, secs as i64, nanos).unwrap().to_string()
}

/// What is shown of one file. All of it is text.
#[derive(Debug)]
pub struct FileRecord {
    pub name: String,
    pub extension: String,
    pub path: String,
    pub size: String,
    pub modified: String,
}

/// The texts of a `FileRecord`.
pub struct RecordModel {
    pub name: Seq<char>,
    pub extension: Seq<char>,
    pub path: Seq<char>,
    pub size: Seq<char>,
    pub modified: Seq<char>,
}

impl DeepView for FileRecord {
    type V = RecordModel;

    open spec fn deep_view(&self) -> RecordModel {
        RecordModel {
            name: self.name@,
            extension: self.extension@,
            path: self.path@,
            size: self.size@,
            modified: self.modified@,
        }
    }
}

/// The record of the file at `path` with `len` bytes, whose last change is
/// written `modified`: name and extension are read off the path, the path
/// stands as it is, and the size is made readable.
pub open spec fn record_of(path: Seq<char>, len: nat, modified: Seq<char>) -> RecordModel {
    RecordModel {
        name: file_name(path),
        extension: extension(path)->0,
        path,
        size: human_readable(len),
        modified,
    }
}

impl FileRecord {
    /// The record of the file at `path` with `len` bytes, whose last change
    /// is written `modified`.
    pub fn new(path: &String, len: u64, modified: String) -> (record: FileRecord)
        requires
            extension(path@) is Some,
        ensures
            record.deep_view() == record_of(path@, len as nat, modified@),
    {
        let name = file_name_of(path.as_str());
        let extension = match extension_of(path.as_str()) {
            Some(ext) => ext,
            None => String::new(),
        };
        FileRecord {
            name,
            extension,
            path: path.clone(),
            size: convert_bytes_to_human_readable(len),
            modified,
        }
    }

    /// A record with the same texts.
    pub fn copy(&self) -> (record: FileRecord)
        ensures
            record.deep_view() == self.deep_view(),
    {
        FileRecord {
            name: self.name.clone(),
            extension: self.extension.clone(),
            path: self.path.clone(),
            size: self.size.clone(),
            modified: self.modified.clone(),
        }
    }
}

/// What to do when the metadata of a file cannot be read.
#[derive(Debug, Clone, Copy, PartialEq, Eq, Structural)]
pub enum ErrorPolicy {
    /// Fail, and hand out no record at all.
    AbortOnError,
    /// Stop there, and hand out the records made so far.
    SkipRemaining,
}

/// The policy that the preference `skip_metadata_errors` asks for.
pub fn policy_of(skip_metadata_errors: bool) -> (policy: ErrorPolicy)
    ensures
        policy == if skip_metadata_errors {
            ErrorPolicy::SkipRemaining
        } else {
            ErrorPolicy::AbortOnError
        },
{
    if skip_metadata_errors {
        ErrorPolicy::SkipRemaining
    } else {
        ErrorPolicy::AbortOnError
    }
}

/// The position of the first file whose metadata is missing, or the number
/// of files where none is.
pub open spec fn first_missing(stats: Seq<Option<FileStat>>) -> int
    decreases stats.len(),
{
    if stats.len() == 0 {
        0
    } else if first_missing(stats.drop_last()) < stats.len() - 1 {
        first_missing(stats.drop_last())
    } else if stats.last() is None {
        stats.len() - 1
    } else {
        stats.len() as int
    }
}

/// `first_missing` is the one position with metadata everywhere before it
/// and none at it.
pub proof fn lemma_first_missing(stats: Seq<Option<FileStat>>)
    ensures
        0 <= first_missing(stats) <= stats.len(),
        forall|i: int| 0 <= i < first_missing(stats) ==> (#[trigger] stats[i]) is Some,
        first_missing(stats) < stats.len() ==> stats[first_missing(stats)] is None,
    decreases stats.len(),
{
    if stats.len() > 0 {
        let front = stats.drop_last();
        lemma_first_missing(front);
        assert forall|i: int| 0 <= i < first_missing(stats) implies (
        #[trigger] stats[i]) is Some by {
            if i < front.len() {
                assert(stats[i] == front[i]);
            }
        }
    }
}

/// A position with metadata everywhere before it and none at it, or the
/// number of files where all have metadata, is `first_missing`.
pub proof fn lemma_first_missing_unique(stats: Seq<Option<FileStat>>, k: int)
    requires
        0 <= k <= stats.len(),
        forall|i: int| 0 <= i < k ==> (#[trigger] stats[i]) is Some,
        k < stats.len() ==> stats[k] is None,
    ensures
        first_missing(stats) == k,
{
    lemma_first_missing(stats);
}

/// The message of a listing that failed at `path`.
pub open spec fn failure_message(path: Seq<char>) -> Seq<char> {
    "Cannot get information of one file "@ + path
}

/// Whether `files` can be listed from `stats`: there is one look at the
/// metadata for each file, and each file up to the first one without metadata
/// has an extension and a time of last change that can be shown as a date.
pub open spec fn can_list(files: Seq<Seq<char>>, stats: Seq<Option<FileStat>>) -> bool {
    &&& files.len() == stats.len()
    &&& forall|i: int|
        0 <= i < first_missing(stats) ==> extension(#[trigger] files[i]) is Some
            && stats[i]->0.shows()
}

/// Whether a listing succeeds: no metadata is missing, or the policy is to
/// skip what follows the first file without.
pub open spec fn succeeds(policy: ErrorPolicy, stats: Seq<Option<FileStat>>) -> bool {
    first_missing(stats) == stats.len() || policy == ErrorPolicy::SkipRemaining
}

/// Whether `records` are the records of the files up to the first one without
/// metadata, in order. The time of last change is written in some way, never
/// as the empty text.
pub open spec fn are_records_of(
    records: Seq<RecordModel>,
    files: Seq<Seq<char>>,
    stats: Seq<Option<FileStat>>,
) -> bool {
    &&& records.len() == first_missing(stats)
    &&& forall|i: int|
        0 <= i < records.len() ==> #[trigger] records[i] == record_of(
            files[i],
            stats[i]->0.len as nat,
            records[i].modified,
        ) && records[i].modified.len() > 0
}

/// Whether `files` can be listed from `stats`.
pub fn listable(files: &Vec<String>, stats: &Vec<Option<FileStat>>) -> (able: bool)
    ensures
        able == can_list(files.deep_view(), stats@),
{
    if files.len() != stats.len() {
        return false;
    }
    let mut i: usize = 0;
    while i < files.len()
        invariant
            i <= files.len(),
            files.len() == stats.len(),
            forall|k: int| 0 <= k < i ==> (#[trigger] stats[k]) is Some,
            forall|k: int|
                0 <= k < i ==> extension(#[trigger] files.deep_view()[k]) is Some
                    && stats[k]->0.shows(),
        decreases files.len() - i,
    {
        match &stats[i] {
            None => {
                proof {
                    lemma_first_missing_unique(stats@, i as int);
                }
                return true;
            },
            Some(stat) => {
                if !stat.can_show() || extension_of(files[i].as_str()).is_none() {
                    proof {
                        lemma_first_missing(stats@);
                        let first = first_missing(stats@);
                        if first <= i {
                            assert(stats@[first] is Some);
                        }
                        assert(files.deep_view()[i as int] == files[i as int]@);
                    }
                    return false;
                }
                assert(files.deep_view()[i as int] == files[i as int]@);
            },
        }
        i += 1;
    }
    proof {
        lemma_first_missing_unique(stats@, files.len() as int);
    }
    true
}

/// The records of `files`, in order, from what a look at each file's
/// metadata gave; `stats[i]` is `None` where the metadata of `files[i]` could
/// not be read. The first such file ends the work: under `AbortOnError` with
/// a failure that names it and without any record, under `SkipRemaining`
/// with the records of the files before it. How a record writes the time of
/// last change depends on the machine's time zone; it is never left empty.
pub fn enrich(policy: ErrorPolicy, files: &Vec<String>, stats: &Vec<Option<FileStat>>) -> (result:
    Result<Vec<FileRecord>, String>)
    requires
        can_list(files.deep_view(), stats@),
    ensures
        result is Ok <==> succeeds(policy, stats@),
        result matches Ok(records) ==> are_records_of(
            records.deep_view(),
            files.deep_view(),
            stats@,
        ),
        result matches Err(message) ==> message@ == failure_message(
            files[first_missing(stats@)]@,
        ),
{
    proof {
        lemma_first_missing(stats@);
    }
    let ghost paths = files.deep_view();
    let mut records: Vec<FileRecord> = Vec::new();
    let mut i: usize = 0;
    while i < files.len()
        invariant
            i <= files.len(),
            files.len() == stats.len(),
            paths == files.deep_view(),
            can_list(paths, stats@),
            i <= first_missing(stats@) <= stats.len(),
            forall|k: int| 0 <= k < first_missing(stats@) ==> (#[trigger] stats[k]) is Some,
            first_missing(stats@) < stats.len() ==> stats[first_missing(stats@)] is None,
            records.len() == i,
            forall|k: int|
                0 <= k < i ==> (#[trigger] records[k]).deep_view() == record_of(
                    paths[k],
                    stats[k]->0.len as nat,
                    records[k].modified@,
                ) && records[k].modified@.len() > 0,
        decreases files.len() - i,
    {
        match &stats[i] {
            None => {
                return match policy {
                    ErrorPolicy::AbortOnError => Err(
                        "Cannot get information of one file ".to_owned().concat(files[i].as_str()),
                    ),
                    ErrorPolicy::SkipRemaining => Ok(records),
                };
            },
            Some(stat) => {
                assert(extension(paths[i as int]) is Some && stats[i as int]->0.shows());
                let modified = local_time_text(stat.modified_secs, stat.modified_nanos);
                records.push(FileRecord::new(&files[i], stat.len, modified));
            },
        }
        i += 1;
    }
    Ok(records)
}

/// The display records of the files listed so far, with the preferences that
/// say how a listing deals with unreadable metadata.
pub struct Stated {
    liststore: Vec<FileRecord>,
    configs: YamlConfiguration,
}

/// A row whose column `index` holds `data`; its other columns are empty. The
/// columns are name, extension, path, size and time of the last change.
pub open spec fn single_column(index: int, data: Seq<char>) -> RecordModel {
    let blank = Seq::<char>::empty();
    RecordModel {
        name: if index == 0 { data } else { blank },
        extension: if index == 1 { data } else { blank },
        path: if index == 2 { data } else { blank },
        size: if index == 3 { data } else { blank },
        modified: if index == 4 { data } else { blank },
    }
}

impl Stated {
    /// The rows listed so far.
    pub closed spec fn rows(&self) -> Seq<RecordModel> {
        self.liststore.deep_view()
    }

    /// The policy that the preferences ask for.
    pub closed spec fn policy(&self) -> ErrorPolicy {
        if self.configs.general.skip_metadata_errors {
            ErrorPolicy::SkipRemaining
        } else {
            ErrorPolicy::AbortOnError
        }
    }

    /// An empty list under the preferences `configs`.
    pub fn new(configs: YamlConfiguration) -> (stated: Stated)
        ensures
            stated.rows() == Seq::<RecordModel>::empty(),
            stated.policy() == if configs.general.skip_metadata_errors {
                ErrorPolicy::SkipRemaining
            } else {
                ErrorPolicy::AbortOnError
            },
    {
        let stated = Stated { liststore: Vec::new(), configs };
        assert(stated.liststore.deep_view() =~= Seq::<RecordModel>::empty());
        stated
    }

    /// The rows listed so far.
    pub fn get_liststore(&self) -> (rows: Vec<FileRecord>)
        ensures
            rows.deep_view() == self.rows(),
    {
        let mut rows: Vec<FileRecord> = Vec::new();
        let mut i: usize = 0;
        while i < self.liststore.len()
            invariant
                i <= self.liststore.len(),
                rows.len() == i,
                forall|k: int|
                    0 <= k < i ==> (#[trigger] rows[k]).deep_view()
                        == self.liststore[k].deep_view(),
            decreases self.liststore.len() - i,
        {
            rows.push(self.liststore[i].copy());
            i += 1;
        }
        assert(rows.deep_view() =~= self.liststore.deep_view());
        rows
    }

    /// Adds a row whose column `index` holds `data`, and says where the row
    /// stands.
    pub fn insert_into(&mut self, index: u32, data: String) -> (row: usize)
        requires
            index < 5,
        ensures
            row == old(self).rows().len(),
            final(self).rows() == old(self).rows().push(single_column(index as int, data@)),
            final(self).policy() == old(self).policy(),
    {
        let ghost before = self.liststore.deep_view();
        let ghost text = data@;
        let row = self.liststore.len();
        let mut record = FileRecord {
            name: String::new(),
            extension: String::new(),
            path: String::new(),
            size: String::new(),
            modified: String::new(),
        };
        if index == 0 {
            record.name = data;
        } else if index == 1 {
            record.extension = data;
        } else if index == 2 {
            record.path = data;
        } else if index == 3 {
            record.size = data;
        } else {
            record.modified = data;
        }
        self.liststore.push(record);
        assert(self.liststore.deep_view() =~= before.push(single_column(index as int, text)));
        row
    }

    /// Lists the records of `files` behind the rows listed so far, from what
    /// a look at each file's metadata gave; `stats[i]` is `None` where the
    /// metadata of `files[i]` could not be read. The first such file ends the
    /// work. Where the preferences say to skip, the records of the files
    /// before it are listed and the call succeeds; otherwise nothing is
    /// listed and the call fails with a message that names the file.
    pub fn stat_and_insert(&mut self, files: Vec<String>, stats: Vec<Option<FileStat>>) -> (result:
        Result<(), String>)
        requires
            can_list(files.deep_view(), stats@),
        ensures
            final(self).policy() == old(self).policy(),
            result is Ok <==> succeeds(old(self).policy(), stats@),
            result is Ok ==> exists|records: Seq<RecordModel>|
                #[trigger] are_records_of(records, files.deep_view(), stats@) && final(self).rows()
                    == old(self).rows() + records,
            result matches Err(message) ==> message@ == failure_message(
                files[first_missing(stats@)]@,
            ) && final(self).rows() == old(self).rows(),
    {
        let policy = policy_of(self.configs.general.skip_metadata_errors);
        match enrich(policy, &files, &stats) {
            Err(message) => Err(message),
            Ok(records) => {
                let ghost before = self.liststore.deep_view();
                let ghost made = records.deep_view();
                let mut records = records;
                self.liststore.append(&mut records);
                assert(self.liststore.deep_view() =~= before + made);
                Ok(())
            },
        }
    }
}

} // verus!
