//! Measuring downloads: when a response answers a range request, what is
//! recorded of it, and the rows and file names of the record.
use vstd::prelude::*;
use vstd::string::*;

use crate::text::{
    chars_of, decimal, digits_of, find_char, is_digit, law_decimals_read_back, number_value,
    parsed, push_decimal, push_text, separated,
};

verus! {

pub open spec fn is_leap(year: int) -> bool {
    year % 4 == 0 && (year % 100 != 0 || year % 400 == 0)
}

/// Days of the year before the month.
pub open spec fn days_before_month(year: int, month: int) -> int {
    let leap = if is_leap(year) { 1int } else { 0 };
    if month <= 1 {
        0
    } else if month == 2 {
        31
    } else {
        leap + if month == 3 {
            59int
        } else if month == 4 {
            90
        } else if month == 5 {
            120
        } else if month == 6 {
            151
        } else if month == 7 {
            181
        } else if month == 8 {
            212
        } else if month == 9 {
            243
        } else if month == 10 {
            273
        } else if month == 11 {
            304
        } else {
            334
        }
    }
}

/// Days of the month.
pub open spec fn month_days(year: int, month: int) -> int {
    if month == 2 {
        if is_leap(year) { 29 } else { 28 }
    } else if month == 4 || month == 6 || month == 9 || month == 11 {
        30
    } else {
        31
    }
}

/// Days from the start of year zero to the start of the year.
pub open spec fn days_before_year(year: int) -> int {
    365 * year + (year + 3) / 4 - (year + 99) / 100 + (year + 399) / 400
}

/// Whether there is such a day in the calendar.
pub open spec fn is_date(year: int, month: int, day: int) -> bool {
    1 <= month <= 12 && 1 <= day <= month_days(year, month)
}

/// Days from the first of January 1970 to the date.
pub open spec fn day_number(year: int, month: int, day: int) -> int {
    days_before_year(year) - days_before_year(1970) + days_before_month(year, month) + day - 1
}

/// A number in decimal, with zeros before it up to the width.
pub open spec fn zero_padded(n: nat, width: int) -> Seq<char> {
    Seq::new(
        (if width > decimal(n).len() { width - decimal(n).len() } else { 0 }) as nat,
        |i: int| '0',
    ) + decimal(n)
}

/// A number in decimal, zeros between its sign and its digits up to the width.
pub open spec fn signed_padded(n: int, width: int) -> Seq<char> {
    if n < 0 {
        "-"@ + zero_padded((-n) as nat, width - 1)
    } else {
        zero_padded(n as nat, width)
    }
}

/// A date as it is written: year, month and day, padded with zeros.
pub open spec fn date_text(year: int, month: int, day: int) -> Seq<char> {
    signed_padded(year, 4) + "-"@ + signed_padded(month, 2) + "-"@ + signed_padded(day, 2)
}

/// Whether the text is the date that lies some days after the first of January
/// 1970.
pub open spec fn is_date_text(days: int, text: Seq<char>) -> bool {
    exists|year: int, month: int, day: int|
        #![trigger date_text(year, month, day)]
        is_date(year, month, day) && day_number(year, month, day) == days && text == date_text(
            year,
            month,
            day,
        )
}

fn push_padded(text: &mut String, n: u64, width: usize)
    ensures
        final(text)@ == old(text)@ + zero_padded(n as nat, width as int),
{
    let mut number: String = String::new();
    push_decimal(&mut number, n);
    let len: usize = number.as_str().unicode_len();
    let ghost start = text@;
    let zeros: usize = if width > len { width - len } else { 0 };
    let mut i: usize = 0;
    proof {
        assert(number@ =~= decimal(n as nat));
        assert(start + Seq::new(0, |k: int| '0') =~= start);
    }
    while i < zeros
        invariant
            i <= zeros,
            text@ == start + Seq::new(i as nat, |k: int| '0'),
        decreases zeros - i,
    {
        text.push('0');
        i += 1;
        assert(text@ =~= start + Seq::new(i as nat, |k: int| '0'));
    }
    push_text(text, number.as_str());
    assert(text@ =~= start + zero_padded(n as nat, width as int));
}

proof fn lemma_year_of_era(doe: int, yoe: int)
    requires
        0 <= doe <= 146_096,
        yoe == (doe - doe / 1_460 + doe / 36_524 - doe / 146_096) / 365,
    ensures
        0 <= yoe <= 399,
        0 <= doe - (365 * yoe + yoe / 4 - yoe / 100) <= 365,
        doe - (365 * yoe + yoe / 4 - yoe / 100) == 365 ==> (yoe + 1) % 4 == 0 && ((yoe + 1) % 100
            != 0 || yoe == 399),
{
    let century = doe / 36_524;
    let cycle = doe / 1_460;
    let rest = doe - cycle + century - doe / 146_096;
    assert(rest == 365 * yoe + rest % 365 && 0 <= rest % 365 < 365);
    if century == 0 {
        assert(yoe / 100 == 0);
    } else if century == 1 {
        assert(yoe / 100 == 1);
    } else if century == 2 {
        assert(yoe / 100 == 2);
    } else if century == 3 {
        assert(yoe / 100 == 3);
    } else {
        assert(doe == 146_096);
    }
}

proof fn lemma_fourth(year: int)
    ensures
        (year + 3) / 4 == year / 4 + if year % 4 == 0 { 0int } else { 1 },
        (year + 4) / 4 == year / 4 + 1,
{
}

proof fn lemma_hundredth(year: int)
    ensures
        (year + 99) / 100 == year / 100 + if year % 100 == 0 { 0int } else { 1 },
        (year + 100) / 100 == year / 100 + 1,
        year % 100 == 0 ==> year % 4 == 0,
{
    assert(year % 100 == 0 ==> year == 4 * (25 * (year / 100)));
}

proof fn lemma_four_hundredth(year: int)
    ensures
        (year + 399) / 400 == year / 400 + if year % 400 == 0 { 0int } else { 1 },
        (year + 400) / 400 == year / 400 + 1,
        year % 400 == 0 ==> year % 100 == 0,
{
    assert(year % 400 == 0 ==> year == 100 * (4 * (year / 400)));
}

/// Days from the first of March of year zero, counted in years that start in
/// March, to the first of March of the year.
proof fn lemma_march_years(year: int)
    ensures
        days_before_year(year) + days_before_month(year, 3) == 365 * year + year / 4 - year / 100
            + year / 400 + 60,
{
    lemma_fourth(year);
    lemma_hundredth(year);
    lemma_four_hundredth(year);
}

proof fn lemma_next_january(year: int)
    ensures
        days_before_year(year + 1) == days_before_year(year) + 365 + if is_leap(year) {
            1int
        } else {
            0
        },
{
    lemma_fourth(year);
    lemma_hundredth(year);
    lemma_four_hundredth(year);
}

/// The month and the day of a day counted from the first of March.
proof fn lemma_month_of(year: int, doy: int, mp: int, month: int, day: int)
    requires
        0 <= doy <= 365,
        doy == 365 ==> is_leap(year),
        mp == (5 * doy + 2) / 153,
        day == doy - (153 * mp + 2) / 5 + 1,
        month == (if mp < 10 { mp + 3 } else { mp - 9 }),
    ensures
        is_date(year, month, day),
        month >= 3 ==> days_before_month(year, month) + day - 1 == days_before_month(year, 3)
            + doy,
        month <= 2 ==> days_before_month(year, month) + day - 1 == doy - 306,
{
    assert(0 <= mp <= 11);
    if mp == 0 {
    } else if mp == 1 {
    } else if mp == 2 {
    } else if mp == 3 {
    } else if mp == 4 {
    } else if mp == 5 {
    } else if mp == 6 {
    } else if mp == 7 {
    } else if mp == 8 {
    } else if mp == 9 {
    } else if mp == 10 {
    } else {
        assert(mp == 11);
    }
}

proof fn lemma_leap_after(era: int, yoe: int)
    requires
        0 <= yoe <= 399,
        (yoe + 1) % 4 == 0 && ((yoe + 1) % 100 != 0 || yoe == 399),
    ensures
        is_leap(yoe + era * 400 + 1),
{
    let year = yoe + era * 400 + 1;
    vstd::arithmetic::div_mod::lemma_mod_multiples_vanish(100 * era, yoe + 1, 4);
    vstd::arithmetic::div_mod::lemma_mod_multiples_vanish(4 * era, yoe + 1, 100);
    vstd::arithmetic::div_mod::lemma_mod_multiples_vanish(era, yoe + 1, 400);
    assert(4 * (100 * era) + (yoe + 1) == year);
    assert(100 * (4 * era) + (yoe + 1) == year);
    assert(400 * era + (yoe + 1) == year);
}

proof fn lemma_date_of(era: int, yoe: int, doy: int, mp: int, year: int, month: int, day: int)
    requires
        0 <= yoe <= 399,
        0 <= doy <= 365,
        doy == 365 ==> (yoe + 1) % 4 == 0 && ((yoe + 1) % 100 != 0 || yoe == 399),
        mp == (5 * doy + 2) / 153,
        day == doy - (153 * mp + 2) / 5 + 1,
        month == (if mp < 10 { mp + 3 } else { mp - 9 }),
        year == yoe + era * 400 + (if month <= 2 { 1int } else { 0 }),
    ensures
        is_date(year, month, day),
        day_number(year, month, day) == era * 146_097 + 365 * yoe + yoe / 4 - yoe / 100 + doy
            - 719_468,
{
    let march = yoe + era * 400;
    assert(march / 4 == yoe / 4 + era * 100);
    assert(march / 100 == yoe / 100 + era * 4);
    assert(march / 400 == era);
    lemma_march_years(march);
    lemma_next_january(march);
    assert(days_before_year(1970) == 719_528);
    if doy == 365 {
        lemma_leap_after(era, yoe);
        assert(mp == 11);
    }
    lemma_month_of(year, doy, mp, month, day);
}

/// The date that lies some days after the first of January 1970, before it
/// where the number is negative.
pub fn civil_date(days_since_epoch: i64) -> (text: String)
    requires
        days_since_epoch <= i64::MAX - 719_468,
    ensures
        is_date_text(days_since_epoch as int, text@),
{
    let z: i64 = days_since_epoch + 719_468;
    let era: i64 = if z >= 0 {
        z / 146_097
    } else {
        -((-z + 146_096) / 146_097)
    };
    let day_of_era: i64 = z - era * 146_097;
    let year_of_era: i64 = (day_of_era - day_of_era / 1_460 + day_of_era / 36_524 - day_of_era
        / 146_096) / 365;
    proof {
        lemma_year_of_era(day_of_era as int, year_of_era as int);
    }
    let day_of_year: i64 = day_of_era - (365 * year_of_era + year_of_era / 4 - year_of_era / 100);
    let month_prime: i64 = (5 * day_of_year + 2) / 153;
    let day: i64 = day_of_year - (153 * month_prime + 2) / 5 + 1;
    let month: i64 = if month_prime < 10 { month_prime + 3 } else { month_prime - 9 };
    let year: i64 = year_of_era + era * 400 + if month <= 2 { 1 } else { 0 };
    proof {
        lemma_date_of(
            era as int,
            year_of_era as int,
            day_of_year as int,
            month_prime as int,
            year as int,
            month as int,
            day as int,
        );
    }
    let mut text: String = String::new();
    if year < 0 {
        push_text(&mut text, "-");
        push_padded(&mut text, (-year) as u64, 3);
    } else {
        push_padded(&mut text, year as u64, 4);
    }
    push_text(&mut text, "-");
    push_padded(&mut text, month as u64, 2);
    push_text(&mut text, "-");
    push_padded(&mut text, day as u64, 2);
    assert(text@ =~= date_text(year as int, month as int, day as int));
    text
}

/// No two dates have the same number, so that a day has one name.
pub proof fn law_days_have_one_date(
    year: int,
    month: int,
    day: int,
    other_year: int,
    other_month: int,
    other_day: int,
)
    requires
        is_date(year, month, day),
        is_date(other_year, other_month, other_day),
        day_number(year, month, day) == day_number(other_year, other_month, other_day),
    ensures
        year == other_year && month == other_month && day == other_day,
{
    if year < other_year {
        lemma_years_ascend(year + 1, other_year);
        lemma_next_january(year);
    } else if other_year < year {
        lemma_years_ascend(other_year + 1, year);
        lemma_next_january(other_year);
    } else if month < other_month {
        lemma_months_ascend(year, month, other_month);
    } else if other_month < month {
        lemma_months_ascend(year, other_month, month);
    }
}

proof fn lemma_years_ascend(a: int, b: int)
    requires
        a <= b,
    ensures
        days_before_year(a) <= days_before_year(b),
    decreases b - a,
{
    if a < b {
        lemma_years_ascend(a, b - 1);
        lemma_next_january(b - 1);
    }
}

proof fn lemma_months_ascend(year: int, a: int, b: int)
    requires
        1 <= a < b <= 12,
    ensures
        days_before_month(year, a) + month_days(year, a) <= days_before_month(year, b),
{
}

/// Whether a field has to be quoted in a row.
pub open spec fn needs_quotes(value: Seq<char>) -> bool {
    value.contains(',') || value.contains('"') || value.contains('\n') || value.contains('\r')
}

/// A text with every quote doubled.
pub open spec fn quotes_doubled(value: Seq<char>) -> Seq<char>
    decreases value.len(),
{
    if value.len() == 0 {
        Seq::empty()
    } else {
        let before = quotes_doubled(value.drop_last());
        if value.last() == '"' {
            before.push('"').push('"')
        } else {
            before.push(value.last())
        }
    }
}

/// A field as it stands in a row.
pub open spec fn csv_text(value: Seq<char>) -> Seq<char> {
    if needs_quotes(value) {
        seq!['"'] + quotes_doubled(value) + seq!['"']
    } else {
        value
    }
}

/// Writes a field of a row, in quotes where it needs them.
pub fn csv(value: &str) -> (field: String)
    ensures
        field@ == csv_text(value@),
{
    let chars: Vec<char> = chars_of(value);
    let quoted: bool = find_char(chars.as_slice(), ',').is_some() || find_char(
        chars.as_slice(),
        '"',
    ).is_some() || find_char(chars.as_slice(), '\n').is_some() || find_char(
        chars.as_slice(),
        '\r',
    ).is_some();
    assert(quoted == needs_quotes(value@));
    if !quoted {
        return value.to_owned();
    }
    let mut field: String = String::new();
    field.push('"');
    let mut i: usize = 0;
    proof {
        assert(value@.take(0) =~= Seq::<char>::empty());
        assert(field@ =~= seq!['"'] + quotes_doubled(value@.take(0)));
    }
    while i < chars.len()
        invariant
            chars@ == value@,
            i <= chars.len(),
            field@ == seq!['"'] + quotes_doubled(value@.take(i as int)),
        decreases chars.len() - i,
    {
        let c: char = chars[i];
        proof {
            assert(value@.take(i + 1).drop_last() =~= value@.take(i as int));
            assert(value@.take(i + 1).last() == c);
        }
        if c == '"' {
            field.push('"');
        }
        field.push(c);
        proof {
            assert(field@ =~= seq!['"'] + quotes_doubled(value@.take(i + 1)));
        }
        i += 1;
    }
    proof {
        assert(value@.take(i as int) =~= value@);
    }
    field.push('"');
    assert(field@ =~= seq!['"'] + quotes_doubled(value@) + seq!['"']);
    field
}

/// The fields with a comma between them.
pub open spec fn row_text(fields: Seq<Seq<char>>) -> Seq<char>
    decreases fields.len(),
{
    if fields.len() == 0 {
        Seq::empty()
    } else if fields.len() == 1 {
        fields[0]
    } else {
        row_text(fields.drop_last()) + ","@ + fields.last()
    }
}

/// Writes fields as one row.
pub fn csv_row(fields: &Vec<String>) -> (row: String)
    ensures
        row@ == row_text(fields@.map_values(|f: String| f@)),
{
    let ghost views = fields@.map_values(|f: String| f@);
    let mut row: String = String::new();
    let mut i: usize = 0;
    proof {
        assert(views.take(0) =~= Seq::<Seq<char>>::empty());
    }
    while i < fields.len()
        invariant
            views == fields@.map_values(|f: String| f@),
            i <= fields.len(),
            row@ == row_text(views.take(i as int)),
        decreases fields.len() - i,
    {
        let ghost before = row@;
        if i > 0 {
            push_text(&mut row, ",");
        }
        push_text(&mut row, fields[i].as_str());
        proof {
            assert(views.take(i + 1).drop_last() =~= views.take(i as int));
            assert(views.take(i + 1).last() == views[i as int]);
            if i == 0 {
                assert(row@ =~= views[0]);
            } else {
                assert(row@ =~= before + ","@ + views[i as int]);
            }
        }
        i += 1;
    }
    proof {
        assert(views.take(i as int) =~= views);
    }
    row
}

/// The first row of a record.
pub fn csv_header() -> (header: &'static str)
    ensures
        header@
            == "timestamp,session_id,object_id,host,range_start,range_end,frame_count,target_bps,window_frames,cache_status,age,server_timing,url_resolve_ms,headers_ttfb_ms,first_byte_ms,body_ms,total_ms,bytes_received,effective_body_bps,result"@,
{
    "timestamp,session_id,object_id,host,range_start,range_end,frame_count,target_bps,window_frames,cache_status,age,server_timing,url_resolve_ms,headers_ttfb_ms,first_byte_ms,body_ms,total_ms,bytes_received,effective_body_bps,result"
}

/// The day of a time in milliseconds of Unix time.
pub fn day_of(timestamp_ms: u64) -> (text: String)
    ensures
        is_date_text(timestamp_ms as int / 86_400_000, text@),
{
    civil_date((timestamp_ms / 86_400_000) as i64)
}

/// The name of the record of a day.
pub fn csv_file_name(day: &str) -> (name: String)
    ensures
        name@ == "transfers-"@ + day@ + ".csv"@,
{
    let mut name: String = String::new();
    push_text(&mut name, "transfers-");
    push_text(&mut name, day);
    push_text(&mut name, ".csv");
    assert(name@ =~= "transfers-"@ + day@ + ".csv"@);
    name
}

/// Whether a response holds the requested bytes: it is partial, or it is the
/// whole object and that is what was asked for.
pub fn answers_range(status: u16, start: u64, expected: u64, content_length: Option<u64>) -> (
    answers: bool)
    ensures
        answers == holds_range(status, start, expected, content_length),
{
    let whole: bool = match content_length {
        Some(length) => status == 200 && start == 0 && length == expected,
        None => false,
    };
    status == 206 || whole
}

/// What is recorded of one transfer. Times are nanoseconds since its start.
#[derive(Debug, PartialEq, Eq)]
pub struct TransferSample {
    pub timestamp_ms: u64,
    pub session_id: String,
    pub object_id: String,
    pub host: String,
    pub range_start: u64,
    pub range_end: u64,
    pub frame_count: u64,
    pub window_frames: usize,
    pub cache_status: String,
    pub age: String,
    pub server_timing: String,
    pub url_resolve: Option<u64>,
    pub headers_ttfb: Option<u64>,
    pub first_byte: Option<u64>,
    pub body: Option<u64>,
    pub total: u64,
    pub bytes_received: u64,
    pub result: String,
}

/// Numbers of a sample as they stand in its row, with their decimals.
#[derive(Debug)]
pub struct SampleNumbers {
    pub target_bps: String,
    pub url_resolve_ms: String,
    pub headers_ttfb_ms: String,
    pub first_byte_ms: String,
    pub body_ms: String,
    pub total_ms: String,
    pub effective_body_bps: String,
}

/// The fields of the row of a sample.
pub open spec fn sample_fields(sample: TransferSample, numbers: SampleNumbers) -> Seq<Seq<char>> {
    seq![
        decimal(sample.timestamp_ms as nat),
        csv_text(sample.session_id@),
        csv_text(sample.object_id@),
        csv_text(sample.host@),
        decimal(sample.range_start as nat),
        decimal(sample.range_end as nat),
        decimal(sample.frame_count as nat),
        numbers.target_bps@,
        decimal(sample.window_frames as nat),
        csv_text(sample.cache_status@),
        csv_text(sample.age@),
        csv_text(sample.server_timing@),
        numbers.url_resolve_ms@,
        numbers.headers_ttfb_ms@,
        numbers.first_byte_ms@,
        numbers.body_ms@,
        numbers.total_ms@,
        decimal(sample.bytes_received as nat),
        numbers.effective_body_bps@,
        csv_text(sample.result@),
    ]
}

fn number_text(n: u64) -> (text: String)
    ensures
        text@ == decimal(n as nat),
{
    let mut text: String = String::new();
    push_decimal(&mut text, n);
    assert(text@ =~= decimal(n as nat));
    text
}

impl TransferSample {
    /// The row of the sample.
    pub fn csv(&self, numbers: SampleNumbers) -> (row: String)
        ensures
            row@ == row_text(sample_fields(*self, numbers)),
    {
        let ghost expected = sample_fields(*self, numbers);
        let mut fields: Vec<String> = Vec::new();
        fields.push(number_text(self.timestamp_ms));
        fields.push(csv(self.session_id.as_str()));
        fields.push(csv(self.object_id.as_str()));
        fields.push(csv(self.host.as_str()));
        fields.push(number_text(self.range_start));
        fields.push(number_text(self.range_end));
        fields.push(number_text(self.frame_count));
        fields.push(numbers.target_bps);
        fields.push(number_text(self.window_frames as u64));
        fields.push(csv(self.cache_status.as_str()));
        fields.push(csv(self.age.as_str()));
        fields.push(csv(self.server_timing.as_str()));
        fields.push(numbers.url_resolve_ms);
        fields.push(numbers.headers_ttfb_ms);
        fields.push(numbers.first_byte_ms);
        fields.push(numbers.body_ms);
        fields.push(numbers.total_ms);
        fields.push(number_text(self.bytes_received));
        fields.push(numbers.effective_body_bps);
        fields.push(csv(self.result.as_str()));
        assert(fields@.map_values(|f: String| f@) =~= expected);
        csv_row(&fields)
    }
}

/// Collects the sample of one transfer and hands it out once: when the transfer
/// completes, or when it is given up.
pub struct SampleGuard {
    sample: Option<TransferSample>,
}

impl SampleGuard {
    /// The sample, while it was not handed out.
    pub closed spec fn held(self) -> Option<TransferSample> {
        self.sample
    }

    /// Starts a sample: until something else is known, the transfer counts as
    /// cancelled.
    pub fn new(sample: TransferSample) -> (guard: SampleGuard)
        ensures
            guard.held() matches Some(s) && s.result@ == "cancelled"@ && s.bytes_received == 0
                && s == (TransferSample {
                result: s.result,
                bytes_received: 0,
                headers_ttfb: None,
                first_byte: None,
                body: None,
                total: 0,
                ..sample
            }),
    {
        SampleGuard {
            sample: Some(
                TransferSample {
                    result: "cancelled".to_owned(),
                    bytes_received: 0,
                    headers_ttfb: None,
                    first_byte: None,
                    body: None,
                    total: 0,
                    ..sample
                },
            ),
        }
    }

    /// Notes the headers of the response.
    pub fn headers(
        &mut self,
        elapsed: u64,
        cache_status: String,
        age: String,
        server_timing: String,
    )
        ensures
            match old(self).held() {
                Some(s) => final(self).held() == Some(
                    TransferSample {
                        headers_ttfb: Some(elapsed),
                        cache_status,
                        age,
                        server_timing,
                        ..s
                    },
                ),
                None => final(self).held() is None,
            },
    {
        let taken: Option<TransferSample> = self.sample.take();
        if let Some(sample) = taken {
            self.sample = Some(
                TransferSample {
                    headers_ttfb: Some(elapsed),
                    cache_status,
                    age,
                    server_timing,
                    ..sample
                },
            );
        }
    }

    /// Counts a chunk of the body; the first one sets the time of the first
    /// byte.
    pub fn chunk(&mut self, bytes: usize, elapsed: u64)
        requires
            old(self).held() matches Some(s) ==> s.bytes_received + bytes <= u64::MAX,
        ensures
            match old(self).held() {
                Some(s) => final(self).held() == Some(
                    TransferSample {
                        first_byte: match s.first_byte {
                            Some(time) => Some(time),
                            None => Some(elapsed),
                        },
                        bytes_received: (s.bytes_received + bytes) as u64,
                        ..s
                    },
                ),
                None => final(self).held() is None,
            },
    {
        let taken: Option<TransferSample> = self.sample.take();
        if let Some(sample) = taken {
            let first_byte: Option<u64> = match sample.first_byte {
                Some(time) => Some(time),
                None => Some(elapsed),
            };
            let bytes_received: u64 = sample.bytes_received + bytes as u64;
            self.sample = Some(TransferSample { first_byte, bytes_received, ..sample });
        }
    }

    /// Notes why the transfer failed.
    pub fn fail(&mut self, result: String)
        ensures
            match old(self).held() {
                Some(s) => final(self).held() == Some(TransferSample { result, ..s }),
                None => final(self).held() is None,
            },
    {
        let taken: Option<TransferSample> = self.sample.take();
        if let Some(sample) = taken {
            self.sample = Some(TransferSample { result, ..sample });
        }
    }

    /// Hands the sample out, if it was not yet: with the time that the whole
    /// transfer took, and that of its body since the first byte.
    pub fn emit(&mut self, elapsed: u64) -> (sample: Option<TransferSample>)
        requires
            old(self).held() matches Some(s) ==> (s.first_byte matches Some(time) ==> time
                <= elapsed),
        ensures
            final(self).held() is None,
            match old(self).held() {
                Some(s) => sample == Some(
                    TransferSample {
                        total: elapsed,
                        body: match s.first_byte {
                            Some(time) => Some((elapsed - time) as u64),
                            None => s.body,
                        },
                        ..s
                    },
                ),
                None => sample is None,
            },
    {
        let taken: Option<TransferSample> = self.sample.take();
        match taken {
            None => None,
            Some(sample) => {
                let body: Option<u64> = match sample.first_byte {
                    Some(time) => Some(elapsed - time),
                    None => sample.body,
                };
                Some(TransferSample { total: elapsed, body, ..sample })
            },
        }
    }

    /// Hands the sample of a transfer out that came to its end.
    pub fn complete(&mut self, elapsed: u64) -> (sample: Option<TransferSample>)
        requires
            old(self).held() matches Some(s) ==> (s.first_byte matches Some(time) ==> time
                <= elapsed),
        ensures
            final(self).held() is None,
            match old(self).held() {
                Some(s) => sample matches Some(done) && done.result@ == "ok"@ && done == (
                TransferSample {
                    result: done.result,
                    total: elapsed,
                    body: match s.first_byte {
                        Some(time) => Some((elapsed - time) as u64),
                        None => s.body,
                    },
                    ..s
                }),
                None => sample is None,
            },
    {
        self.fail("ok".to_owned());
        self.emit(elapsed)
    }
}

/// What is known of a transfer before it starts.
#[derive(Debug)]
pub struct TransferLabels {
    pub timestamp_ms: u64,
    pub session_id: String,
    pub object_id: String,
    pub window_frames: usize,
    pub url_resolve: Option<u64>,
}

/// What `reqwest::Url::parse` and `Url::host_str` find in a text: the host of
/// the URL, and nothing where the text is no URL or its URL has no host.
pub uninterp spec fn url_host(url: Seq<char>) -> Option<Seq<char>>;

/// `reqwest::Url::parse` reads an absolute URL and `Url::host_str` gives its
/// host. Both depend on the text alone.
#[verifier::external_body]
fn host_of_url(url: &str) -> (host: Option<String>)
    ensures
        match host {
            Some(h) => url_host(url@) == Some(h@),
            None => url_host(url@) is None,
        },
{
    reqwest::Url::parse(url).ok().and_then(|url| url.host_str().map(str::to_owned))
}

/// The host that a sample names: the one that was found, or no text.
pub fn sample_host(found: Option<String>) -> (host: String)
    ensures
        host@ == match found {
            Some(h) => h@,
            None => Seq::empty(),
        },
{
    match found {
        Some(host) => host,
        None => String::new(),
    }
}

/// The host that requests for a URL go to, as a sample names it.
pub open spec fn host_text(url: Seq<char>) -> Seq<char> {
    match url_host(url) {
        Some(host) => host,
        None => Seq::empty(),
    }
}

/// What a response says of its way.
#[derive(Debug)]
pub struct ResponseLabels {
    pub cache_status: String,
    pub age: String,
    pub server_timing: String,
}

/// What to do after the response to a request for a range.
#[derive(Debug, PartialEq, Eq)]
pub enum TransferStep {
    /// Read the body.
    Read,
    /// The status is an error.
    Refused,
    /// The response does not hold the range; the text says so.
    Ignored(String),
}

/// A status that is an error of the client or of the server.
pub open spec fn is_error_status(status: u16) -> bool {
    400 <= status <= 599
}

/// A response that holds the requested bytes.
pub open spec fn holds_range(
    status: u16,
    start: u64,
    expected: u64,
    content_length: Option<u64>,
) -> bool {
    status == 206 || (status == 200 && start == 0 && content_length == Some(expected))
}

/// The request for a range of an object, with the sample that is taken of it.
pub struct MeasuredTransfer {
    guard: SampleGuard,
    object_id: String,
    start: u64,
    expected: u64,
}

/// What a measured transfer is: its sample while it was not handed out, and the
/// range that it asks for.
pub struct MeasuredTransferView {
    pub sample: Option<TransferSample>,
    pub object_id: Seq<char>,
    pub start: u64,
    pub expected: u64,
}

impl View for MeasuredTransfer {
    type V = MeasuredTransferView;

    closed spec fn view(&self) -> MeasuredTransferView {
        MeasuredTransferView {
            sample: self.guard.held(),
            object_id: self.object_id@,
            start: self.start,
            expected: self.expected,
        }
    }
}

impl MeasuredTransferView {
    /// The transfer after its sample got a result.
    pub open spec fn failed(self, after: MeasuredTransferView, result: Seq<char>) -> bool {
        &&& after == (MeasuredTransferView { sample: after.sample, ..self })
        &&& match self.sample {
            Some(s) => after.sample matches Some(t) && t.result@ == result && t == (
            TransferSample { result: t.result, ..s }),
            None => after.sample is None,
        }
    }

    /// The sample after the headers of the response were noted.
    pub open spec fn with_headers(self, elapsed: u64, labels: ResponseLabels) -> Option<
        TransferSample,
    > {
        match self.sample {
            Some(s) => Some(
                TransferSample {
                    headers_ttfb: Some(elapsed),
                    cache_status: labels.cache_status,
                    age: labels.age,
                    server_timing: labels.server_timing,
                    ..s
                },
            ),
            None => None,
        }
    }

    /// The times of the sample are not later than `elapsed`.
    pub open spec fn ran_until(self, elapsed: u64) -> bool {
        self.sample matches Some(s) ==> (s.first_byte matches Some(time) ==> time <= elapsed)
    }
}

impl MeasuredTransfer {
    /// Starts the request for the bytes from `start` up to `end` of what the URL
    /// names.
    pub fn begin(
        labels: TransferLabels,
        url: &str,
        start: u64,
        end: u64,
        frame_size: u64,
    ) -> (transfer: MeasuredTransfer)
        requires
            start < end,
            frame_size > 0,
        ensures
            transfer@.object_id == labels.object_id@,
            transfer@.start == start,
            transfer@.expected == end - start,
            transfer@.sample matches Some(s) && {
                &&& s.timestamp_ms == labels.timestamp_ms
                &&& s.session_id == labels.session_id
                &&& s.object_id == labels.object_id
                &&& s.host@ == host_text(url@)
                &&& s.range_start == start
                &&& s.range_end == end
                &&& s.frame_count == (end - start) as int / frame_size as int
                &&& s.window_frames == labels.window_frames
                &&& s.cache_status@ == Seq::<char>::empty()
                &&& s.age@ == Seq::<char>::empty()
                &&& s.server_timing@ == Seq::<char>::empty()
                &&& s.url_resolve == labels.url_resolve
                &&& s.headers_ttfb is None
                &&& s.first_byte is None
                &&& s.body is None
                &&& s.total == 0
                &&& s.bytes_received == 0
                &&& s.result@ == "cancelled"@
            },
    {
        let expected: u64 = end - start;
        let object_id: String = labels.object_id.clone();
        let sample: TransferSample = TransferSample {
            timestamp_ms: labels.timestamp_ms,
            session_id: labels.session_id,
            object_id: labels.object_id,
            host: sample_host(host_of_url(url)),
            range_start: start,
            range_end: end,
            frame_count: expected / frame_size,
            window_frames: labels.window_frames,
            cache_status: String::new(),
            age: String::new(),
            server_timing: String::new(),
            url_resolve: labels.url_resolve,
            headers_ttfb: None,
            first_byte: None,
            body: None,
            total: 0,
            bytes_received: 0,
            result: String::new(),
        };
        MeasuredTransfer { guard: SampleGuard::new(sample), object_id, start, expected }
    }

    /// Notes that no response came.
    pub fn request_failed(&mut self, error: &str)
        ensures
            old(self)@.failed(final(self)@, "request: "@ + error@),
    {
        self.guard.fail(labelled("request: ", error));
    }

    /// Notes the headers of the response and judges it. `error` describes a
    /// status that is an error.
    pub fn respond(
        &mut self,
        elapsed: u64,
        status: u16,
        content_length: Option<u64>,
        labels: ResponseLabels,
        error: &str,
    ) -> (step: TransferStep)
        ensures
            ({
                let noted = MeasuredTransferView {
                    sample: old(self)@.with_headers(elapsed, labels),
                    ..old(self)@
                };
                let ignored = old(self)@.object_id + ": server ignored the Range request"@;
                match step {
                    TransferStep::Refused => {
                        &&& is_error_status(status)
                        &&& noted.failed(final(self)@, "http: "@ + error@)
                    },
                    TransferStep::Ignored(text) => {
                        &&& !is_error_status(status)
                        &&& !holds_range(
                            status,
                            old(self)@.start,
                            old(self)@.expected,
                            content_length,
                        )
                        &&& text@ == ignored
                        &&& noted.failed(final(self)@, ignored)
                    },
                    TransferStep::Read => {
                        &&& holds_range(
                            status,
                            old(self)@.start,
                            old(self)@.expected,
                            content_length,
                        )
                        &&& final(self)@ == noted
                    },
                }
            }),
    {
        self.guard.headers(elapsed, labels.cache_status, labels.age, labels.server_timing);
        if 400 <= status && status <= 599 {
            self.guard.fail(labelled("http: ", error));
            return TransferStep::Refused;
        }
        if !answers_range(status, self.start, self.expected, content_length) {
            let text: String = labelled(
                self.object_id.as_str(),
                ": server ignored the Range request",
            );
            self.guard.fail(text.clone());
            return TransferStep::Ignored(text);
        }
        TransferStep::Read
    }

    /// Counts a chunk of the body.
    pub fn chunk(&mut self, bytes: usize, elapsed: u64)
        requires
            old(self)@.sample matches Some(s) ==> s.bytes_received + bytes <= u64::MAX,
        ensures
            final(self)@ == (MeasuredTransferView {
                sample: match old(self)@.sample {
                    Some(s) => Some(
                        TransferSample {
                            first_byte: match s.first_byte {
                                Some(time) => Some(time),
                                None => Some(elapsed),
                            },
                            bytes_received: (s.bytes_received + bytes) as u64,
                            ..s
                        },
                    ),
                    None => None,
                },
                ..old(self)@
            }),
    {
        self.guard.chunk(bytes, elapsed);
    }

    /// Notes that the body broke off.
    pub fn body_failed(&mut self, error: &str)
        ensures
            old(self)@.failed(final(self)@, "body: "@ + error@),
    {
        self.guard.fail(labelled("body: ", error));
    }

    /// Hands the sample of a transfer out that came to its end.
    pub fn complete(&mut self, elapsed: u64) -> (sample: Option<TransferSample>)
        requires
            old(self)@.ran_until(elapsed),
        ensures
            final(self)@ == (MeasuredTransferView { sample: None, ..old(self)@ }),
            match old(self)@.sample {
                Some(s) => sample matches Some(done) && done.result@ == "ok"@ && done == (
                TransferSample {
                    result: done.result,
                    total: elapsed,
                    body: match s.first_byte {
                        Some(time) => Some((elapsed - time) as u64),
                        None => s.body,
                    },
                    ..s
                }),
                None => sample is None,
            },
    {
        self.guard.complete(elapsed)
    }

    /// Hands the sample out, if it was not yet, as it stands: of a transfer that
    /// failed or was given up.
    pub fn abandon(&mut self, elapsed: u64) -> (sample: Option<TransferSample>)
        requires
            old(self)@.ran_until(elapsed),
        ensures
            final(self)@ == (MeasuredTransferView { sample: None, ..old(self)@ }),
            match old(self)@.sample {
                Some(s) => sample == Some(
                    TransferSample {
                        total: elapsed,
                        body: match s.first_byte {
                            Some(time) => Some((elapsed - time) as u64),
                            None => s.body,
                        },
                        ..s
                    },
                ),
                None => sample is None,
            },
    {
        self.guard.emit(elapsed)
    }
}

fn labelled(label: &str, text: &str) -> (labelled: String)
    ensures
        labelled@ == label@ + text@,
{
    let mut labelled: String = String::new();
    push_text(&mut labelled, label);
    push_text(&mut labelled, text);
    assert(labelled@ =~= label@ + text@);
    labelled
}

/// The calendar promise: the first of January 1970 is day zero, and each date has
/// the number after that of the date before it, over the ends of months and years.
pub proof fn law_days_follow_each_other(year: int, month: int, day: int)
    requires
        is_date(year, month, day),
    ensures
        day_number(1970, 1, 1) == 0,
        is_date(year, month, day + 1) ==> day_number(year, month, day + 1) == day_number(
            year,
            month,
            day,
        ) + 1,
        !is_date(year, month, day + 1) && month < 12 ==> is_date(year, month + 1, 1) && day_number(
            year,
            month + 1,
            1,
        ) == day_number(year, month, day) + 1,
        !is_date(year, month, day + 1) && month == 12 ==> is_date(year + 1, 1, 1) && day_number(
            year + 1,
            1,
            1,
        ) == day_number(year, month, day) + 1,
{
    lemma_next_january(year);
}

/// The months have the days of the calendar; February has one more in every fourth
/// year, but for the hundreds that four hundred does not divide.
pub proof fn law_months_have_their_days(year: int, month: int)
    requires
        1 <= month <= 12,
    ensures
        month_days(year, month) == if month == 2 {
            if (year % 4 == 0 && year % 100 != 0) || year % 400 == 0 {
                29
            } else {
                28int
            }
        } else if month == 4 || month == 6 || month == 9 || month == 11 {
            30
        } else {
            31
        },
{
    assert(year % 400 == 0 ==> year % 4 == 0 && year % 100 == 0);
}

/// A padded number reads back as itself, and is as long as the width or its digits.
pub proof fn law_padding_keeps_the_number(n: nat, width: int)
    ensures
        zero_padded(n, width).len() >= width,
        zero_padded(n, width).len() == width || zero_padded(n, width) == decimal(n),
        parsed(zero_padded(n, width), 10, n as int) == Some(n as int),
{
    let text = zero_padded(n, width);
    let zeros = (if width > decimal(n).len() {
        width - decimal(n).len()
    } else {
        0
    }) as nat;
    law_decimals_read_back(n, n as int);
    lemma_zeros_do_not_count(zeros, decimal(n));
    assert(text =~= Seq::new(zeros, |i: int| '0') + decimal(n));
    if zeros == 0 {
        assert(text =~= decimal(n));
    }
    assert(text.len() > 0);
    assert(text[0] != '+') by {
        if zeros == 0 {
            assert(text[0] == decimal(n)[0]);
        }
    }
    assert(digits_of(text) == text);
    assert forall|i: int| 0 <= i < text.len() implies is_digit(#[trigger] text[i], 10) by {
        if i >= zeros {
            assert(text[i] == decimal(n)[i - zeros]);
        }
    }
    assert(digits_of(decimal(n)) == decimal(n));
}

proof fn lemma_zeros_do_not_count(zeros: nat, digits: Seq<char>)
    ensures
        number_value(Seq::new(zeros, |i: int| '0') + digits, 10) == number_value(digits, 10),
    decreases zeros + digits.len(),
{
    let front = Seq::new(zeros, |i: int| '0');
    let text = front + digits;
    if digits.len() > 0 {
        lemma_zeros_do_not_count(zeros, digits.drop_last());
        assert(text.drop_last() =~= front + digits.drop_last());
    } else if zeros > 0 {
        lemma_zeros_do_not_count((zeros - 1) as nat, digits);
        assert(text.drop_last() =~= Seq::new((zeros - 1) as nat, |i: int| '0') + digits);
    } else {
        assert(text =~= digits);
    }
}

/// A date of four digits is written as year, month and day, two digits each for
/// the last two, with dashes between them.
pub proof fn law_dates_are_written_in_order(year: int, month: int, day: int)
    requires
        is_date(year, month, day),
        0 <= year,
    ensures
        date_text(year, month, day) == zero_padded(year as nat, 4).push('-') + (zero_padded(
            month as nat,
            2,
        ).push('-') + zero_padded(day as nat, 2)),
{
    reveal_strlit("-");
    assert(date_text(year, month, day) =~= zero_padded(year as nat, 4).push('-') + (zero_padded(
        month as nat,
        2,
    ).push('-') + zero_padded(day as nat, 2)));
}

/// A text with each two quotes taken for one.
pub open spec fn quotes_halved(text: Seq<char>) -> Seq<char>
    decreases text.len(),
{
    if text.len() == 0 {
        Seq::empty()
    } else if text.len() >= 2 && text[0] == '"' && text[1] == '"' {
        seq!['"'] + quotes_halved(text.skip(2))
    } else {
        seq![text[0]] + quotes_halved(text.skip(1))
    }
}

proof fn lemma_doubled_first(value: Seq<char>)
    requires
        value.len() > 0,
    ensures
        quotes_doubled(value) == (if value[0] == '"' {
            seq!['"', '"']
        } else {
            seq![value[0]]
        }) + quotes_doubled(value.skip(1)),
    decreases value.len(),
{
    let head = if value[0] == '"' {
        seq!['"', '"']
    } else {
        seq![value[0]]
    };
    if value.len() == 1 {
        assert(value.drop_last() =~= Seq::<char>::empty());
        assert(value.skip(1) =~= Seq::<char>::empty());
        assert(quotes_doubled(value) =~= head + quotes_doubled(value.skip(1)));
    } else {
        lemma_doubled_first(value.drop_last());
        assert(value.drop_last().skip(1) =~= value.skip(1).drop_last());
        assert(quotes_doubled(value) =~= head + quotes_doubled(value.skip(1)));
    }
}

proof fn lemma_doubling_reads_back(value: Seq<char>)
    ensures
        quotes_halved(quotes_doubled(value)) == value,
    decreases value.len(),
{
    if value.len() == 0 {
        assert(quotes_halved(quotes_doubled(value)) =~= value);
    } else {
        let rest = value.skip(1);
        let text = quotes_doubled(value);
        lemma_doubled_first(value);
        lemma_doubling_reads_back(rest);
        if value[0] == '"' {
            assert(text[0] == '"' && text[1] == '"');
            assert(text.skip(2) =~= quotes_doubled(rest));
        } else {
            assert(text[0] == value[0]);
            assert(text.skip(1) =~= quotes_doubled(rest));
        }
        assert(seq![value[0]] + rest =~= value);
    }
}

/// The field promise: a field reads back as its text. It is quoted exactly where
/// the text holds a comma, a quote or the end of a line, and stands for itself
/// elsewhere.
pub proof fn law_fields_read_back(value: Seq<char>)
    ensures
        ({
            let field = csv_text(value);
            let quoted = value.contains(',') || value.contains('"') || value.contains('\n')
                || value.contains('\r');
            &&& !quoted ==> field == value
            &&& quoted ==> {
                &&& field.len() >= 2
                &&& field[0] == '"'
                &&& field.last() == '"'
                &&& quotes_halved(field.subrange(1, field.len() - 1)) == value
            }
        }),
{
    if needs_quotes(value) {
        let field = csv_text(value);
        assert(field.subrange(1, field.len() - 1) =~= quotes_doubled(value));
        lemma_doubling_reads_back(value);
    }
}

/// The fields of a row stand in order with a comma between each two.
pub proof fn law_rows_are_separated_by_commas(fields: Seq<Seq<char>>)
    ensures
        row_text(fields) == separated(fields, ','),
    decreases fields.len(),
{
    reveal_strlit(",");
    if fields.len() > 1 {
        law_rows_are_separated_by_commas(fields.drop_last());
        assert(row_text(fields.drop_last()) + ","@ + fields.last() =~= row_text(
            fields.drop_last(),
        ).push(',') + fields.last());
    } else {
        assert(row_text(fields) =~= separated(fields, ','));
    }
}

/// The row of a sample has the twenty columns of the record, each in its place.
pub proof fn law_samples_fill_their_columns(sample: TransferSample, numbers: SampleNumbers)
    ensures
        ({
            let fields = sample_fields(sample, numbers);
            &&& fields.len() == 20
            &&& fields[0] == decimal(sample.timestamp_ms as nat)
            &&& fields[1] == csv_text(sample.session_id@)
            &&& fields[2] == csv_text(sample.object_id@)
            &&& fields[3] == csv_text(sample.host@)
            &&& fields[4] == decimal(sample.range_start as nat)
            &&& fields[5] == decimal(sample.range_end as nat)
            &&& fields[6] == decimal(sample.frame_count as nat)
            &&& fields[7] == numbers.target_bps@
            &&& fields[8] == decimal(sample.window_frames as nat)
            &&& fields[9] == csv_text(sample.cache_status@)
            &&& fields[10] == csv_text(sample.age@)
            &&& fields[11] == csv_text(sample.server_timing@)
            &&& fields[12] == numbers.url_resolve_ms@
            &&& fields[13] == numbers.headers_ttfb_ms@
            &&& fields[14] == numbers.first_byte_ms@
            &&& fields[15] == numbers.body_ms@
            &&& fields[16] == numbers.total_ms@
            &&& fields[17] == decimal(sample.bytes_received as nat)
            &&& fields[18] == numbers.effective_body_bps@
            &&& fields[19] == csv_text(sample.result@)
        }),
{
}

/// A partial response holds its range. A whole one does only if the range starts
/// at the first byte and the object ends with it, and no other response does.
pub proof fn law_responses_hold_their_range(
    status: u16,
    start: u64,
    expected: u64,
    content_length: Option<u64>,
)
    ensures
        holds_range(206, start, expected, content_length),
        holds_range(200, start, expected, content_length) <==> start == 0 && content_length
            == Some(expected),
        holds_range(status, start, expected, content_length) ==> status == 206 || status == 200,
        holds_range(status, start, expected, content_length) ==> !is_error_status(status),
        is_error_status(status) <==> status / 100 == 4 || status / 100 == 5,
{
}

/// A result changes nothing of a sample but its result, and a sample that was
/// handed out gets none.
pub proof fn law_failures_are_noted(
    before: MeasuredTransferView,
    after: MeasuredTransferView,
    result: Seq<char>,
)
    requires
        before.failed(after, result),
    ensures
        after.object_id == before.object_id,
        after.start == before.start,
        after.expected == before.expected,
        after.sample is Some <==> before.sample is Some,
        after.sample matches Some(s) ==> {
            &&& s.result@ == result
            &&& s.bytes_received == before.sample->0.bytes_received
            &&& s.first_byte == before.sample->0.first_byte
            &&& s.headers_ttfb == before.sample->0.headers_ttfb
            &&& s.range_start == before.sample->0.range_start
            &&& s.range_end == before.sample->0.range_end
        },
{
}

/// The headers of a response are noted with their time, and nothing else changes.
pub proof fn law_headers_are_noted(
    before: MeasuredTransferView,
    elapsed: u64,
    labels: ResponseLabels,
)
    ensures
        before.with_headers(elapsed, labels) is Some <==> before.sample is Some,
        before.with_headers(elapsed, labels) matches Some(s) ==> {
            &&& s.headers_ttfb == Some(elapsed)
            &&& s.cache_status == labels.cache_status
            &&& s.age == labels.age
            &&& s.server_timing == labels.server_timing
            &&& s.result == before.sample->0.result
            &&& s.bytes_received == before.sample->0.bytes_received
            &&& s.first_byte == before.sample->0.first_byte
        },
{
}

/// A sample names the host of its URL, and no host where the URL has none.
pub proof fn law_samples_name_the_host(url: Seq<char>)
    ensures
        url_host(url) matches Some(host) ==> host_text(url) == host,
        url_host(url) is None ==> host_text(url).len() == 0,
{
}

/// A year before year zero is written with its sign, which counts for the width, and
/// then the number without it.
pub proof fn law_signs_count_for_the_width(n: int, width: int)
    requires
        n < 0,
    ensures
        ({
            let text = signed_padded(n, width);
            let digits = text.skip(1);
            &&& text.len() >= width
            &&& text[0] == '-'
            &&& parsed(digits, 10, -n) == Some(-n)
            &&& text.len() == width || digits == decimal((-n) as nat)
        }),
{
    reveal_strlit("-");
    law_padding_keeps_the_number((-n) as nat, width - 1);
    assert(signed_padded(n, width).skip(1) =~= zero_padded((-n) as nat, width - 1));
}

} // verus!
