use vstd::prelude::*;

use vstd::string::StringExecFns;

use crate::collaborators::{path_extension, path_file_stem};
use crate::timestamp::{
    civil_dom, civil_month, civil_year, day_of_timestamp, second_of_day, timestamp_day,
    timestamp_second_of_day, ymd_from_epoch_day, TIMESTAMP_MAX, TIMESTAMP_MIN,
};

verus! {

pub open spec fn digit_char(d: int) -> char {
    if d == 0 {
        '0'
    } else if d == 1 {
        '1'
    } else if d == 2 {
        '2'
    } else if d == 3 {
        '3'
    } else if d == 4 {
        '4'
    } else if d == 5 {
        '5'
    } else if d == 6 {
        '6'
    } else if d == 7 {
        '7'
    } else if d == 8 {
        '8'
    } else {
        '9'
    }
}

/// Decimal digits of a non-negative number, most significant first.
pub open spec fn dec_str(n: int) -> Seq<char>
    recommends
        n >= 0,
    decreases n,
{
    if n < 10 {
        seq![digit_char(n)]
    } else {
        dec_str(n / 10).push(digit_char(n % 10))
    }
}

/// Two decimal digits, zero padded.
pub open spec fn pad2_str(n: int) -> Seq<char> {
    seq![digit_char(n / 10 % 10), digit_char(n % 10)]
}

/// Four decimal digits, zero padded.
pub open spec fn pad4_str(n: int) -> Seq<char> {
    seq![
        digit_char(n / 1000 % 10),
        digit_char(n / 100 % 10),
        digit_char(n / 10 % 10),
        digit_char(n % 10),
    ]
}

/// A counter as four zero-padded digits, or all its digits once it outgrows them.
pub open spec fn seq_counter_str(n: int) -> Seq<char> {
    if n < 10000 {
        pad4_str(n)
    } else {
        dec_str(n)
    }
}

/// A day number rendered as `YYYY-MM-DD`.
pub open spec fn date_str(day: int) -> Seq<char> {
    pad4_str(civil_year(day)) + seq!['-'] + pad2_str(civil_month(day)) + seq!['-'] + pad2_str(
        civil_dom(day),
    )
}

/// Name of the directory a pile lands in: its date and a per-date counter.
pub open spec fn pile_dir_str(day: int, n: int) -> Seq<char> {
    date_str(day) + seq!['_'] + seq_counter_str(n)
}

/// A timestamp rendered as `YYYY-MM-DDTHH-MM-SS`, usable as a file stem.
pub open spec fn timestamp_stem_str(ts: int) -> Seq<char> {
    pad4_str(civil_year(day_of_timestamp(ts))) + seq!['-'] + pad2_str(
        civil_month(day_of_timestamp(ts)),
    ) + seq!['-'] + pad2_str(civil_dom(day_of_timestamp(ts))) + seq!['T'] + pad2_str(
        second_of_day(ts) / 3600,
    ) + seq!['-'] + pad2_str(second_of_day(ts) / 60 % 60) + seq!['-'] + pad2_str(
        second_of_day(ts) % 60,
    )
}

fn digit_str(d: u8) -> (r: &'static str)
    requires
        d < 10,
    ensures
        r@ == seq![digit_char(d as int)],
{
    let s: &'static str = if d == 0 {
        "0"
    } else if d == 1 {
        "1"
    } else if d == 2 {
        "2"
    } else if d == 3 {
        "3"
    } else if d == 4 {
        "4"
    } else if d == 5 {
        "5"
    } else if d == 6 {
        "6"
    } else if d == 7 {
        "7"
    } else if d == 8 {
        "8"
    } else {
        "9"
    };
    proof {
        reveal_strlit("0");
        reveal_strlit("1");
        reveal_strlit("2");
        reveal_strlit("3");
        reveal_strlit("4");
        reveal_strlit("5");
        reveal_strlit("6");
        reveal_strlit("7");
        reveal_strlit("8");
        reveal_strlit("9");
        assert(s@ =~= seq![digit_char(d as int)]);
    }
    s
}

fn push_pad2(out: &mut String, n: u8)
    ensures
        final(out)@ == old(out)@ + pad2_str(n as int),
{
    out.append(digit_str(n / 10 % 10));
    out.append(digit_str(n % 10));
    assert(final(out)@ =~= old(out)@ + pad2_str(n as int));
}

fn push_pad4(out: &mut String, n: u16)
    ensures
        final(out)@ == old(out)@ + pad4_str(n as int),
{
    out.append(digit_str((n / 1000 % 10) as u8));
    out.append(digit_str((n / 100 % 10) as u8));
    out.append(digit_str((n / 10 % 10) as u8));
    out.append(digit_str((n % 10) as u8));
    assert(final(out)@ =~= old(out)@ + pad4_str(n as int));
}

fn push_dec(out: &mut String, n: u64)
    ensures
        final(out)@ == old(out)@ + dec_str(n as int),
    decreases n,
{
    if n < 10 {
        out.append(digit_str(n as u8));
        assert(final(out)@ =~= old(out)@ + dec_str(n as int));
    } else {
        push_dec(out, n / 10);
        out.append(digit_str((n % 10) as u8));
        assert(final(out)@ =~= old(out)@ + dec_str(n as int));
    }
}

/// `YYYY-MM-DD` for a day number inside the supported range.
pub fn date_string(day: i64) -> (r: String)
    requires
        -719162 <= day <= 2932896,
    ensures
        r@ == date_str(day as int),
{
    let (y, m, d) = ymd_from_epoch_day(day);
    let mut out = String::new();
    push_pad4(&mut out, y);
    out.append("-");
    push_pad2(&mut out, m);
    out.append("-");
    push_pad2(&mut out, d);
    proof {
        reveal_strlit("-");
        assert(out@ =~= date_str(day as int));
    }
    out
}

/// Directory name for a pile: `YYYY-MM-DD_NNNN`.
pub fn pile_dir_string(day: i64, n: usize) -> (r: String)
    requires
        -719162 <= day <= 2932896,
    ensures
        r@ == pile_dir_str(day as int, n as int),
{
    let mut out = date_string(day);
    out.append("_");
    if n < 10000 {
        push_pad4(&mut out, n as u16);
    } else {
        push_dec(&mut out, n as u64);
    }
    proof {
        reveal_strlit("_");
        assert(out@ =~= pile_dir_str(day as int, n as int));
    }
    out
}

/// `YYYY-MM-DDTHH-MM-SS` for a timestamp, the stem picked for renamed files.
pub fn timestamp_stem(ts: i64) -> (r: String)
    requires
        TIMESTAMP_MIN <= ts <= TIMESTAMP_MAX,
    ensures
        r@ == timestamp_stem_str(ts as int),
{
    let day = timestamp_day(ts);
    let secs = timestamp_second_of_day(ts);
    let mut out = date_string(day);
    out.append("T");
    push_pad2(&mut out, (secs / 3600) as u8);
    out.append("-");
    push_pad2(&mut out, (secs / 60 % 60) as u8);
    out.append("-");
    push_pad2(&mut out, (secs % 60) as u8);
    proof {
        reveal_strlit("T");
        reveal_strlit("-");
        assert(out@ =~= timestamp_stem_str(ts as int));
    }
    out
}

/// The file name tried at a given attempt while looking for an unused name:
/// `stem.ext` first, then `stem-1.ext`, `stem-2.ext`, and so on.
pub open spec fn candidate_name_str(stem: Seq<char>, ext: Seq<char>, attempt: int) -> Seq<char> {
    if attempt == 0 {
        stem + seq!['.'] + ext
    } else {
        stem + seq!['-'] + dec_str(attempt) + seq!['.'] + ext
    }
}

/// Candidate file name for one attempt of the collect rename loop.
pub fn candidate_file_name(stem: &str, ext: &str, attempt: u64) -> (r: String)
    ensures
        r@ == candidate_name_str(stem@, ext@, attempt as int),
{
    let mut out = String::from_str(stem);
    if attempt > 0 {
        out.append("-");
        push_dec(&mut out, attempt);
    }
    out.append(".");
    out.append(ext);
    proof {
        reveal_strlit("-");
        reveal_strlit(".");
        assert(out@ =~= candidate_name_str(stem@, ext@, attempt as int));
    }
    out
}

/// Name of a directory derived from a reference directory name and a suffix:
/// `base-suffix` when the reference has a final component, the suffix alone
/// otherwise.
pub open spec fn sibling_dir_str(base: Option<Seq<char>>, suffix: Seq<char>) -> Seq<char> {
    match base {
        Option::Some(b) => b + seq!['-'] + suffix,
        Option::None => suffix,
    }
}

/// Directory name the run derives from the source folder's name.
pub fn sibling_dir_name(base: Option<&String>, suffix: &str) -> (r: String)
    ensures
        r@ == sibling_dir_str(
            match base {
                Option::Some(b) => Option::Some(b@),
                Option::None => Option::None,
            },
            suffix@,
        ),
{
    match base {
        Option::Some(b) => {
            let mut out = b.clone();
            out.append("-");
            out.append(suffix);
            proof {
                reveal_strlit("-");
                assert(out@ =~= b@ + seq!['-'] + suffix@);
            }
            out
        },
        Option::None => String::from_str(suffix),
    }
}

/// `dir/name` with the platform-independent separator the library uses.
pub fn joined_path(dir: &str, name: &str) -> (r: String)
    ensures
        r@ == dir@ + seq!['/'] + name@,
{
    let mut out = String::from_str(dir);
    out.append("/");
    out.append(name);
    proof {
        reveal_strlit("/");
        assert(out@ =~= dir@ + seq!['/'] + name@);
    }
    out
}

/// Why a collected file could not be given its new name.
#[derive(Clone, Copy, Debug, PartialEq, Eq, Structural)]
pub enum CollectNameError {
    /// The original path has no usable file stem.
    InvalidFileStem,
    /// The original path has no file extension.
    MissingExtension,
}

/// The stem of a collected file's new name: the original stem when names
/// are kept, else the file's timestamp rendered as a sortable stamp.
pub fn collect_file_stem(original: &str, keep_names: bool, timestamp: i64) -> (r: Result<
    String,
    CollectNameError,
>)
    requires
        !keep_names ==> TIMESTAMP_MIN <= timestamp <= TIMESTAMP_MAX,
    ensures
        !keep_names ==> (r matches Ok(s) && s@ == timestamp_stem_str(timestamp as int)),
        keep_names ==> (r matches Ok(s) ==> 1 <= s@.len() <= original@.len()),
        r matches Err(e) ==> keep_names && e == CollectNameError::InvalidFileStem,
{
    if keep_names {
        match path_file_stem(original) {
            Some(s) => Ok(s),
            None => Err(CollectNameError::InvalidFileStem),
        }
    } else {
        Ok(timestamp_stem(timestamp))
    }
}

/// The extension a collected file keeps from its original name.
pub fn collect_extension(original: &str) -> (r: Result<String, CollectNameError>)
    ensures
        r matches Ok(s) ==> s@.len() <= original@.len(),
        r matches Err(e) ==> e == CollectNameError::MissingExtension,
{
    match path_extension(original) {
        Some(s) => Ok(s),
        None => Err(CollectNameError::MissingExtension),
    }
}

} // verus!
