//! Reads the delimited input text into typed records.
//!
//! The format: a header line `type,client,tx,amount`, then one line per
//! record with three or four comma-separated fields — an event kind, a
//! client id, a transaction id, and optionally an amount. Fields are
//! trimmed, empty lines are skipped, and an amount is written in decimal
//! with an optional minus sign and up to four places past the point (the
//! whole part at most fourteen digits; fraction digits past the fourth
//! refine nothing at this precision and are dropped).

use vstd::prelude::*;
use vstd::string::StrSliceExecFns;
use vstd::string::StringExecFns;

use crate::amount::Amount;
use crate::amount::MAX_AMOUNT_RAW;
use crate::text::all_digits;
use crate::text::digit_val;
use crate::text::is_digit;
use crate::text::parse_bounded;
use crate::text::parse_bounded_str;
use crate::text::split_seq;
use crate::text::split_str;
use crate::text::str_eq;
use crate::text::trim;
use crate::text::trim_str;

verus! {

/// A typed representation of a single input line: an event kind, the client
/// and transaction it names, and the amount it carries, if any.
#[derive(Clone, PartialEq, Debug)]
pub struct InputRecord {
    pub kind: String,
    pub client: u16,
    pub tx: u32,
    pub amount: Option<Amount>,
}

/// The mathematical content of one input record.
pub ghost struct RecordView {
    pub kind: Seq<char>,
    pub client: u16,
    pub tx: u32,
    pub amount: Option<i128>,
}

impl RecordView {
    /// Any amount carried is a well-formed single amount.
    pub open spec fn wf(self) -> bool {
        self.amount matches Some(v) ==> -crate::amount::MAX_AMOUNT_RAW <= v
            <= crate::amount::MAX_AMOUNT_RAW
    }
}

impl View for InputRecord {
    type V = RecordView;

    open spec fn view(&self) -> RecordView {
        RecordView {
            kind: self.kind@,
            client: self.client,
            tx: self.tx,
            amount: match self.amount {
                Some(a) => Some(a.0),
                None => None,
            },
        }
    }
}

impl DeepView for InputRecord {
    type V = RecordView;

    open spec fn deep_view(&self) -> RecordView {
        self@
    }
}

/// Why an input text is structurally malformed.
#[derive(Copy, Clone, PartialEq, Eq, Structural, Debug)]
pub enum CsvError {
    /// The first non-empty line is not the expected header.
    BadHeader,
    /// A data line has the wrong number of fields or a malformed number.
    BadRecord,
}

/// The value of the first four fraction digits, zero-padded on the right.
pub open spec fn frac4_val(f: Seq<char>) -> int {
    1000 * frac_digit(f, 0) + 100 * frac_digit(f, 1) + 10 * frac_digit(f, 2) + frac_digit(f, 3)
}

/// The `k`-th fraction digit, or zero past the end.
pub open spec fn frac_digit(f: Seq<char>, k: int) -> int {
    if k < f.len() {
        digit_val(f[k])
    } else {
        0
    }
}

/// A non-negative raw amount read from decimal text: a whole part of at
/// most fourteen digits' worth, and optionally a point followed by at
/// least one fraction digit, of which the first four are kept.
pub open spec fn magnitude_of_text(s: Seq<char>) -> Option<int> {
    let parts = split_seq(s, '.');
    if parts.len() == 1 {
        match parse_bounded(parts[0], 99_999_999_999_999) {
            Some(w) => Some(w * 10000),
            None => None,
        }
    } else if parts.len() == 2 {
        match parse_bounded(parts[0], 99_999_999_999_999) {
            Some(w) => if parts[1].len() >= 1 && all_digits(parts[1]) {
                Some(w * 10000 + frac4_val(parts[1]))
            } else {
                None
            },
            None => None,
        }
    } else {
        None
    }
}

/// A raw amount read from decimal text, with an optional minus sign.
pub open spec fn amount_of_text(s: Seq<char>) -> Option<int> {
    if s.len() > 0 && s[0] == '-' {
        match magnitude_of_text(s.drop_first()) {
            Some(v) => Some(-v),
            None => None,
        }
    } else {
        magnitude_of_text(s)
    }
}

/// The field texts of one line: its comma-separated pieces, each trimmed.
pub open spec fn fields_of_line(line: Seq<char>) -> Seq<Seq<char>> {
    split_seq(line, ',').map_values(|f: Seq<char>| trim(f))
}

/// Whether a line is the expected header: the four column names.
pub open spec fn is_header(line: Seq<char>) -> bool {
    let fs = fields_of_line(line);
    &&& fs.len() == 4
    &&& fs[0] == "type"@
    &&& fs[1] == "client"@
    &&& fs[2] == "tx"@
    &&& fs[3] == "amount"@
}

/// The record a data line describes, if any: kind, client id, transaction
/// id, and an optional amount; three or four fields, the fourth possibly
/// empty.
pub open spec fn line_record(line: Seq<char>) -> Option<RecordView> {
    let fs = fields_of_line(line);
    if fs.len() == 3 || fs.len() == 4 {
        match parse_bounded(fs[1], u16::MAX as int) {
            Some(c) => match parse_bounded(fs[2], u32::MAX as int) {
                Some(t) => if fs.len() == 3 || fs[3].len() == 0 {
                    Some(RecordView { kind: fs[0], client: c as u16, tx: t as u32, amount: None })
                } else {
                    match amount_of_text(fs[3]) {
                        Some(v) => Some(
                            RecordView {
                                kind: fs[0],
                                client: c as u16,
                                tx: t as u32,
                                amount: Some(v as i128),
                            },
                        ),
                        None => None,
                    }
                },
                None => None,
            },
            None => None,
        }
    } else {
        None
    }
}

/// The records of the lines after the header; empty lines are skipped, and
/// the first malformed line is the error.
pub open spec fn records_of_lines(lines: Seq<Seq<char>>) -> Result<Seq<RecordView>, CsvError>
    decreases lines.len(),
{
    if lines.len() == 0 {
        Ok(Seq::empty())
    } else if lines[0].len() == 0 {
        records_of_lines(lines.drop_first())
    } else {
        match line_record(lines[0]) {
            Some(rv) => match records_of_lines(lines.drop_first()) {
                Ok(rest) => Ok(seq![rv] + rest),
                Err(e) => Err(e),
            },
            None => Err(CsvError::BadRecord),
        }
    }
}

/// What a sequence of lines parses to: the first non-empty line must be
/// the header, and every later non-empty line a record.
pub open spec fn lines_records(lines: Seq<Seq<char>>) -> Result<Seq<RecordView>, CsvError>
    decreases lines.len(),
{
    if lines.len() == 0 {
        Ok(Seq::empty())
    } else if lines[0].len() == 0 {
        lines_records(lines.drop_first())
    } else if is_header(lines[0]) {
        records_of_lines(lines.drop_first())
    } else {
        Err(CsvError::BadHeader)
    }
}

/// What a whole input text parses to.
pub open spec fn csv_records(s: Seq<char>) -> Result<Seq<RecordView>, CsvError> {
    lines_records(split_seq(s, '\n'))
}

/// The comma-separated fields of a line, each trimmed.
fn split_fields(line: &str) -> (r: Vec<String>)
    ensures
        r@.len() == fields_of_line(line@).len(),
        forall|k: int| 0 <= k < r@.len() ==> (#[trigger] r@[k])@ == fields_of_line(line@)[k],
{
    let raw = split_str(line, ',');
    let mut out: Vec<String> = Vec::new();
    let mut k: usize = 0;
    while k < raw.len()
        invariant
            k <= raw@.len(),
            raw@.len() == split_seq(line@, ',').len(),
            forall|a: int| 0 <= a < raw@.len() ==> (#[trigger] raw@[a])@ == split_seq(line@, ',')[a],
            out@.len() == k,
            forall|a: int| 0 <= a < k ==> (#[trigger] out@[a])@ == fields_of_line(line@)[a],
        decreases raw@.len() - k,
    {
        out.push(String::from_str(trim_str(raw[k].as_str())));
        k = k + 1;
    }
    out
}

/// Whether a line is the expected header.
fn is_header_str(line: &str) -> (r: bool)
    ensures
        r == is_header(line@),
{
    let fields = split_fields(line);
    if fields.len() != 4 {
        return false;
    }
    str_eq(fields[0].as_str(), "type") && str_eq(fields[1].as_str(), "client") && str_eq(
        fields[2].as_str(),
        "tx",
    ) && str_eq(fields[3].as_str(), "amount")
}

/// Reads a non-negative four-decimal raw amount from its text.
#[verifier::loop_isolation(false)]
fn parse_magnitude_str(s: &str) -> (r: Option<i128>)
    ensures
        r matches Some(v) ==> magnitude_of_text(s@) == Some(v as int) && 0 <= v <= MAX_AMOUNT_RAW,
        r is None ==> magnitude_of_text(s@) is None,
{
    let parts = split_str(s, '.');
    if parts.len() == 1 {
        match parse_bounded_str(parts[0].as_str(), 99_999_999_999_999) {
            Some(w) => Some((w as i128) * 10000),
            None => None,
        }
    } else if parts.len() == 2 {
        let w = match parse_bounded_str(parts[0].as_str(), 99_999_999_999_999) {
            Some(w) => w,
            None => {
                return None;
            },
        };
        let fp = parts[1].as_str();
        let flen = fp.unicode_len();
        if flen == 0 {
            return None;
        }
        let mut k: usize = 0;
        while k < flen
            invariant
                k <= flen,
                flen == fp@.len(),
                forall|a: int| 0 <= a < k ==> is_digit(#[trigger] fp@[a]),
            decreases flen - k,
        {
            let u = fp.get_char(k) as u32;
            if u < 48 || u > 57 {
                return None;
            }
            k = k + 1;
        }
        let d0 = (fp.get_char(0) as u32 - 48) as i128;
        let d1 = if flen > 1 {
            (fp.get_char(1) as u32 - 48) as i128
        } else {
            0
        };
        let d2 = if flen > 2 {
            (fp.get_char(2) as u32 - 48) as i128
        } else {
            0
        };
        let d3 = if flen > 3 {
            (fp.get_char(3) as u32 - 48) as i128
        } else {
            0
        };
        let frac = 1000 * d0 + 100 * d1 + 10 * d2 + d3;
        Some((w as i128) * 10000 + frac)
    } else {
        None
    }
}

/// Reads a signed four-decimal raw amount from its text.
fn parse_amount_str(s: &str) -> (r: Option<i128>)
    ensures
        r matches Some(v) ==> amount_of_text(s@) == Some(v as int) && -MAX_AMOUNT_RAW <= v
            <= MAX_AMOUNT_RAW,
        r is None ==> amount_of_text(s@) is None,
{
    let len = s.unicode_len();
    if len > 0 && s.get_char(0) == '-' {
        let rest = s.substring_char(1, len);
        proof {
            assert(rest@ =~= s@.drop_first());
        }
        match parse_magnitude_str(rest) {
            Some(v) => Some(-v),
            None => None,
        }
    } else {
        parse_magnitude_str(s)
    }
}

/// Reads the record a data line describes.
fn line_record_str(line: &str) -> (r: Option<InputRecord>)
    ensures
        r matches Some(rec) ==> line_record(line@) == Some(rec@) && rec@.wf(),
        r is None ==> line_record(line@) is None,
{
    let fields = split_fields(line);
    if !(fields.len() == 3 || fields.len() == 4) {
        return None;
    }
    let client = match parse_bounded_str(fields[1].as_str(), 65535) {
        Some(v) => v as u16,
        None => {
            return None;
        },
    };
    let tx = match parse_bounded_str(fields[2].as_str(), 4294967295) {
        Some(v) => v as u32,
        None => {
            return None;
        },
    };
    let amount: Option<Amount> = if fields.len() == 3 {
        None
    } else if fields[3].as_str().unicode_len() == 0 {
        None
    } else {
        match parse_amount_str(fields[3].as_str()) {
            Some(v) => Some(Amount(v)),
            None => {
                return None;
            },
        }
    };
    let kind = String::from_str(fields[0].as_str());
    Some(InputRecord { kind, client, tx, amount })
}

/// Parses a whole input text into records: the header line, then one
/// record per non-empty line. The error reports the first malformed line:
/// a missing or wrong header, or a record with the wrong number of fields
/// or a malformed number. Unknown event kinds are not errors here; they
/// are dropped later, record by record.
#[verifier::loop_isolation(false)]
pub fn parse_csv(input_csv: String) -> (r: Result<Vec<InputRecord>, CsvError>)
    ensures
        r matches Ok(records) ==> {
            &&& csv_records(input_csv@) == Ok::<Seq<RecordView>, CsvError>(records.deep_view())
            &&& forall|k: int| 0 <= k < records@.len() ==> (#[trigger] records@[k]@).wf()
        },
        r matches Err(e) ==> csv_records(input_csv@) == Err::<Seq<RecordView>, CsvError>(e),
{
    let lines = split_str(input_csv.as_str(), '\n');
    let ghost lviews = split_seq(input_csv@, '\n');
    let mut records: Vec<InputRecord> = Vec::new();
    let mut seen_header = false;
    proof {
        assert(lviews.skip(0) =~= lviews);
    }
    let mut li: usize = 0;
    while li < lines.len()
        invariant
            li <= lines@.len(),
            lines@.len() == lviews.len(),
            forall|k: int| 0 <= k < lviews.len() ==> (#[trigger] lines@[k])@ == lviews[k],
            !seen_header ==> records@.len() == 0 && lines_records(lviews) == lines_records(
                lviews.skip(li as int),
            ),
            seen_header ==> lines_records(lviews) == (match records_of_lines(
                lviews.skip(li as int),
            ) {
                Ok(rest) => Ok::<Seq<RecordView>, CsvError>(records.deep_view() + rest),
                Err(e) => Err::<Seq<RecordView>, CsvError>(e),
            }),
            forall|k: int| 0 <= k < records@.len() ==> (#[trigger] records@[k]@).wf(),
        decreases lines@.len() - li,
    {
        proof {
            assert(lviews.skip(li as int).drop_first() =~= lviews.skip(li as int + 1));
            assert(lviews.skip(li as int)[0] == lviews[li as int]);
        }
        let line = &lines[li];
        if line.as_str().unicode_len() == 0 {
            // empty line: skip it
        } else if !seen_header {
            if is_header_str(line.as_str()) {
                seen_header = true;
            } else {
                return Err(CsvError::BadHeader);
            }
        } else {
            let ghost recs0 = records.deep_view();
            match line_record_str(line.as_str()) {
                Some(rec) => {
                    records.push(rec);
                    proof {
                        assert(records.deep_view() =~= recs0.push(rec@));
                        if records_of_lines(lviews.skip(li as int + 1)) is Ok {
                            let rest = records_of_lines(lviews.skip(li as int + 1))->Ok_0;
                            assert(recs0 + (seq![rec@] + rest) =~= records.deep_view() + rest);
                        }
                    }
                },
                None => {
                    return Err(CsvError::BadRecord);
                },
            }
        }
        li = li + 1;
    }
    proof {
        assert(lviews.skip(lines@.len() as int) =~= Seq::<Seq<char>>::empty());
        if seen_header {
            assert(records.deep_view() + Seq::<RecordView>::empty() =~= records.deep_view());
        } else {
            assert(records.deep_view() =~= Seq::<RecordView>::empty());
        }
    }
    Ok(records)
}

} // verus!
