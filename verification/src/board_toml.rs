//! Human-readable form of a [`BoardProfile`].
//!
//! The wire type is two `u64` bitmasks; the readable form uses pin-range strings
//! ("0-15,26-29") so board files stay readable and diffable.

use vstd::prelude::*;
use vstd::string::*;

use crate::bits;
use crate::config::BoardProfile;
use crate::text;
use crate::text::{chars_of, find_char, push_decimal, trim_bounds};

verus! {

/// A board profile as pin ranges.
#[derive(Debug)]
pub struct TomlBoardProfile {
    /// GPIOs that exist and are wired out, as ranges ("0-15,26-29").
    pub available: String,
    /// GPIOs reserved for non-probe duties (LEDs, ...), as ranges. Reserved
    /// pins are never assignable even if listed available.
    pub reserved: String,
}

/// Why a pin-range string was rejected.
#[derive(Debug)]
pub enum PinRangeError {
    /// This is not a pin number.
    InvalidPin(String),
    /// The pin is beyond the last bit of a mask.
    OutOfRange(u8),
    /// The range ends before it starts.
    Descending(String),
}

/// The contents of a [`PinRangeError`].
pub enum PinRangeErrorSpec {
    /// This is not a pin number.
    InvalidPin(Seq<char>),
    /// The pin is beyond the last bit of a mask.
    OutOfRange(u8),
    /// The range ends before it starts.
    Descending(Seq<char>),
}

impl View for PinRangeError {
    type V = PinRangeErrorSpec;

    open spec fn view(&self) -> PinRangeErrorSpec {
        match self {
            PinRangeError::InvalidPin(text) => PinRangeErrorSpec::InvalidPin(text@),
            PinRangeError::OutOfRange(pin) => PinRangeErrorSpec::OutOfRange(*pin),
            PinRangeError::Descending(part) => PinRangeErrorSpec::Descending(part@),
        }
    }
}

/// The pin that `s` names: a number, with white space round it, of at most 63.
pub open spec fn pin_of(s: Seq<char>) -> Result<u8, PinRangeErrorSpec> {
    match text::unsigned(text::trim(s)) {
        Some(n) => if n > 255 {
            Err(PinRangeErrorSpec::InvalidPin(s))
        } else if n > 63 {
            Err(PinRangeErrorSpec::OutOfRange(n as u8))
        } else {
            Ok(n as u8)
        },
        None => Err(PinRangeErrorSpec::InvalidPin(s)),
    }
}

/// The first and last pin that one part of a pin-range string names.
pub open spec fn range_of(part: Seq<char>) -> Result<(u8, u8), PinRangeErrorSpec> {
    let dash = text::index_of(part, '-') as int;
    if dash >= part.len() {
        match pin_of(part) {
            Err(e) => Err(e),
            Ok(pin) => Ok((pin, pin)),
        }
    } else {
        match (pin_of(part.take(dash)), pin_of(part.skip(dash + 1))) {
            (Err(e), _) => Err(e),
            (_, Err(e)) => Err(e),
            (Ok(lo), Ok(hi)) => if lo > hi {
                Err(PinRangeErrorSpec::Descending(part))
            } else {
                Ok((lo, hi))
            },
        }
    }
}

/// The pins from `lo` to `hi`, both included.
pub open spec fn pins_between(lo: u8, hi: u8) -> Set<u8> {
    Set::new(|pin: u8| lo <= pin <= hi)
}

/// The pins that the parts of a pin-range string name together. Empty parts name
/// none; the first part that is wrong decides.
pub open spec fn parts_pins(parts: Seq<Seq<char>>) -> Result<Set<u8>, PinRangeErrorSpec>
    decreases parts.len(),
{
    if parts.len() == 0 {
        Ok(Set::empty())
    } else {
        match parts_pins(parts.drop_last()) {
            Err(e) => Err(e),
            Ok(pins) => {
                let part = text::trim(parts.last());
                if part.len() == 0 {
                    Ok(pins)
                } else {
                    match range_of(part) {
                        Err(e) => Err(e),
                        Ok((lo, hi)) => Ok(pins.union(pins_between(lo, hi))),
                    }
                }
            },
        }
    }
}

/// The pins that a pin-range string names.
pub open spec fn ranges_pins(s: Seq<char>) -> Result<Set<u8>, PinRangeErrorSpec> {
    parts_pins(text::split(s, ','))
}

/// A mask stands for the pins of a pin-range string, or an error for the error.
pub open spec fn reads_as(
    r: Result<u64, PinRangeError>,
    expected: Result<Set<u8>, PinRangeErrorSpec>,
) -> bool {
    match (r, expected) {
        (Ok(mask), Ok(pins)) => bits::pin_set(mask) == pins,
        (Err(e), Err(f)) => e@ == f,
        _ => false,
    }
}

/// A part that is wrong decides for every longer list too.
proof fn lemma_parts_pins_prefix(parts: Seq<Seq<char>>, rest: Seq<Seq<char>>)
    requires
        parts_pins(parts) is Err,
    ensures
        parts_pins(parts + rest) == parts_pins(parts),
    decreases rest.len(),
{
    if rest.len() == 0 {
        assert(parts + rest =~= parts);
    } else {
        lemma_parts_pins_prefix(parts, rest.drop_last());
        assert((parts + rest).drop_last() =~= parts + rest.drop_last());
    }
}

/// Reading one more digit never makes a number smaller.
proof fn lemma_digits_value_grows(s: Seq<char>, n: int)
    requires
        0 <= n <= s.len(),
        text::all_digits(s),
    ensures
        text::digits_value(s.take(n)) <= text::digits_value(s),
    decreases s.len() - n,
{
    if n < s.len() {
        lemma_digits_value_grows(s, n + 1);
        assert(s.take(n + 1).drop_last() =~= s.take(n));
        assert(text::is_digit(s[n]));
    } else {
        assert(s.take(n) =~= s);
    }
}

/// The number in `chars[from..to]`, if it is one of at most 255.
fn parse_byte(chars: &Vec<char>, from: usize, to: usize) -> (r: Option<u8>)
    requires
        from <= to <= chars@.len(),
    ensures
        r == (match text::unsigned(chars@.subrange(from as int, to as int)) {
            Some(n) => if n > 255 {
                None
            } else {
                Some(n as u8)
            },
            None => None,
        }),
{
    let ghost whole = chars@.subrange(from as int, to as int);
    let start: usize = if from < to && chars[from] == '+' {
        from + 1
    } else {
        from
    };
    let ghost digits = chars@.subrange(start as int, to as int);
    proof {
        assert(from < to ==> whole[0] == chars@[from as int]);
        assert(whole.len() > 0 && whole[0] == '+' ==> whole.skip(1) =~= digits);
        assert(!(whole.len() > 0 && whole[0] == '+') ==> whole =~= digits);
    }
    if start == to {
        return None;
    }
    let mut value: u32 = 0;
    let mut i: usize = start;
    assert(digits.take(0) =~= Seq::empty());
    while i < to
        invariant
            start <= i <= to <= chars@.len(),
            start < to,
            digits == chars@.subrange(start as int, to as int),
            text::unsigned(whole) == (if text::all_digits(digits) {
                Some(text::digits_value(digits))
            } else {
                None
            }),
            whole == chars@.subrange(from as int, to as int),
            text::all_digits(digits.take(i - start)),
            value == text::digits_value(digits.take(i - start)),
            value <= 255,
        decreases to - i,
    {
        let c: char = chars[i];
        let ghost n = i - start;
        assert(digits[n] == c);
        if !('0' <= c && c <= '9') {
            assert(!text::is_digit(digits[n]));
            return None;
        }
        assert(digits.take(n + 1).drop_last() =~= digits.take(n));
        value = value * 10 + (c as u32 - '0' as u32);
        assert forall|k: int| 0 <= k < n + 1 implies text::is_digit(
            #[trigger] digits.take(n + 1)[k],
        ) by {
            if k < n {
                assert(digits.take(n)[k] == digits.take(n + 1)[k]);
            }
        }
        if value > 255 {
            proof {
                if text::all_digits(digits) {
                    lemma_digits_value_grows(digits, n + 1);
                }
            }
            return None;
        }
        i = i + 1;
    }
    assert(digits.take(to - start) =~= digits);
    Some(value as u8)
}

/// The pin that `text` names.
pub fn parse_pin(text: &str) -> (r: Result<u8, PinRangeError>)
    ensures
        match (r, pin_of(text@)) {
            (Ok(pin), Ok(expected)) => pin == expected,
            (Err(e), Err(expected)) => e@ == expected,
            _ => false,
        },
{
    let chars = chars_of(text);
    assert(text@.subrange(0, text@.len() as int) =~= text@);
    let (lo, hi) = trim_bounds(&chars, 0, chars.len());
    match parse_byte(&chars, lo, hi) {
        None => Err(PinRangeError::InvalidPin(text.to_owned())),
        Some(pin) => if pin > 63 {
            Err(PinRangeError::OutOfRange(pin))
        } else {
            Ok(pin)
        },
    }
}

/// The first and last pin that one part of a pin-range string names.
fn parse_range(part: &str) -> (r: Result<(u8, u8), PinRangeError>)
    ensures
        match (r, range_of(part@)) {
            (Ok(range), Ok(expected)) => range == expected,
            (Err(e), Err(expected)) => e@ == expected,
            _ => false,
        },
{
    let chars = chars_of(part);
    let n: usize = chars.len();
    assert(part@.subrange(0, n as int) =~= part@);
    let dash: usize = find_char(&chars, 0, n, '-');
    if dash == n {
        let pin: u8 = parse_pin(part)?;
        return Ok((pin, pin));
    }
    assert(part@.take(dash as int) =~= part@.subrange(0, dash as int));
    assert(part@.skip(dash + 1) =~= part@.subrange(dash + 1, n as int));
    let lo: u8 = parse_pin(part.substring_char(0, dash))?;
    let hi: u8 = parse_pin(part.substring_char(dash + 1, n))?;
    if lo > hi {
        return Err(PinRangeError::Descending(part.to_owned()));
    }
    Ok((lo, hi))
}

/// The mask with the pins from `lo` to `hi` added.
fn add_range(mask: u64, lo: u8, hi: u8) -> (r: u64)
    requires
        lo <= hi <= 63,
    ensures
        bits::pin_set(r) == bits::pin_set(mask).union(pins_between(lo, hi)),
{
    let mut out: u64 = mask;
    let mut pin: u8 = lo;
    while pin <= hi
        invariant
            lo <= pin <= hi + 1,
            hi <= 63,
            forall|q: u8|
                bits::has_pin(out, q) == (bits::has_pin(mask, q) || lo <= q < pin),
        decreases hi + 1 - pin,
    {
        let ghost before = out;
        out = out | (1u64 << pin);
        assert forall|q: u8|
            bits::has_pin(out, q) == (bits::has_pin(mask, q) || lo <= q < pin + 1) by {
            bits::lemma_add_pin(before, pin, q);
        }
        pin = pin + 1;
    }
    assert(bits::pin_set(out) =~= bits::pin_set(mask).union(pins_between(lo, hi)));
    out
}

/// Parse "0-15,26-29" (or "" for no pins) into a bitmask. Single pins and
/// ranges may be mixed; ranges are inclusive.
pub fn parse_pin_ranges(text: &str) -> (r: Result<u64, PinRangeError>)
    ensures
        reads_as(r, ranges_pins(text@)),
{
    let chars = chars_of(text);
    let n: usize = chars.len();
    let ghost parts = text::split(text@, ',');
    let ghost mut done: Seq<Seq<char>> = Seq::empty();
    let mut mask: u64 = 0;
    let mut start: usize = 0;
    proof {
        assert forall|pin: u8| !bits::has_pin(0, pin) by {
            bits::lemma_no_pin(pin);
        }
        assert(bits::pin_set(0) =~= Set::empty());
        assert(text@.skip(0) =~= text@);
        assert(done + parts =~= parts);
    }
    loop
        invariant
            chars@ == text@,
            n == chars@.len(),
            start <= n,
            parts == text::split(text@, ','),
            parts == done + text::split(text@.skip(start as int), ','),
            parts_pins(done) == Ok::<Set<u8>, PinRangeErrorSpec>(bits::pin_set(mask)),
        decreases n - start,
    {
        let ghost rest = text@.skip(start as int);
        assert(rest =~= text@.subrange(start as int, n as int));
        let end: usize = find_char(&chars, start, n, ',');
        let ghost piece = text@.subrange(start as int, end as int);
        let ghost after = done.push(piece);
        assert(piece =~= rest.take(end - start));
        assert(after.drop_last() =~= done);
        let ghost tail = if end == n {
            Seq::empty()
        } else {
            text::split(text@.skip(end + 1), ',')
        };
        assert(parts == after + tail) by {
            if end == n {
                assert(piece =~= rest);
            } else {
                assert(rest.skip(end - start + 1) =~= text@.skip(end + 1));
            }
            assert(text::split(rest, ',') =~= seq![piece] + tail);
            assert(done + (seq![piece] + tail) =~= after + tail);
        }
        proof {
            if parts_pins(after) is Err {
                lemma_parts_pins_prefix(after, tail);
            }
        }
        let (lo, hi) = trim_bounds(&chars, start, end);
        if lo < hi {
            let (first, last) = parse_range(text.substring_char(lo, hi))?;
            mask = add_range(mask, first, last);
        }
        proof {
            done = after;
        }
        if end == n {
            assert(parts =~= done);
            return Ok(mask);
        }
        start = end + 1;
    }
}

/// The last pin of the run of `mask` that holds `pin`.
pub open spec fn run_end(mask: u64, pin: u8) -> u8
    decreases 64 - pin,
{
    if pin < 63 && bits::has_pin(mask, (pin + 1) as u8) {
        run_end(mask, (pin + 1) as u8)
    } else {
        pin
    }
}

/// The runs of neighbouring pins of `mask` from `pin` up, each as its first and last pin.
pub open spec fn runs_from(mask: u64, pin: nat) -> Seq<(u8, u8)>
    decreases 64 - pin,
{
    if pin >= 64 {
        Seq::empty()
    } else if !bits::has_pin(mask, pin as u8) {
        runs_from(mask, pin + 1)
    } else {
        proof {
            lemma_run_end(mask, pin as u8);
        }
        let end = run_end(mask, pin as u8);
        seq![(pin as u8, end)] + runs_from(mask, (end + 1) as nat)
    }
}

/// One run as text.
pub open spec fn run_text(run: (u8, u8)) -> Seq<char> {
    if run.0 == run.1 {
        text::decimal(run.0 as nat)
    } else {
        text::decimal(run.0 as nat) + seq!['-'] + text::decimal(run.1 as nat)
    }
}

/// Runs as text.
pub open spec fn run_texts(runs: Seq<(u8, u8)>) -> Seq<Seq<char>> {
    runs.map_values(|run: (u8, u8)| run_text(run))
}

/// A mask as a pin-range string: its runs in ascending order, with commas between them.
pub open spec fn mask_text(mask: u64) -> Seq<char> {
    text::join(run_texts(runs_from(mask, 0)), ',')
}

/// A run ends where the next pin is not set, and holds no gap.
pub proof fn lemma_run_end(mask: u64, pin: u8)
    requires
        bits::has_pin(mask, pin),
    ensures
        pin <= run_end(mask, pin) <= 63,
        forall|q: u8| pin <= q <= run_end(mask, pin) ==> bits::has_pin(mask, q),
        run_end(mask, pin) < 63 ==> !bits::has_pin(mask, (run_end(mask, pin) + 1) as u8),
    decreases 64 - pin,
{
    if pin < 63 && bits::has_pin(mask, (pin + 1) as u8) {
        lemma_run_end(mask, (pin + 1) as u8);
    }
}

/// Format a bitmask as "0-15,26-29" (or "" for no pins).
pub fn format_pin_ranges(mask: u64) -> (r: String)
    ensures
        r@ == mask_text(mask),
{
    let mut out = String::new();
    let ghost mut done: Seq<(u8, u8)> = Seq::empty();
    let mut pin: u8 = 0;
    proof {
        assert(done + runs_from(mask, 0) =~= runs_from(mask, 0));
        assert(run_texts(done) =~= Seq::empty());
    }
    let mut first: bool = true;
    while pin < 64
        invariant
            pin <= 64,
            runs_from(mask, 0) == done + runs_from(mask, pin as nat),
            out@ == text::join(run_texts(done), ','),
            first == (done.len() == 0),
        decreases 64 - pin,
    {
        if mask & (1u64 << pin) == 0 {
            assert(!bits::has_pin(mask, pin));
            pin = pin + 1;
            continue;
        }
        assert(bits::has_pin(mask, pin));
        let start: u8 = pin;
        proof {
            lemma_run_end(mask, start);
        }
        while pin < 63 && mask & (1u64 << (pin + 1)) != 0
            invariant
                start <= pin <= 63,
                run_end(mask, pin) == run_end(mask, start),
            decreases 63 - pin,
        {
            assert(bits::has_pin(mask, (pin + 1) as u8));
            pin = pin + 1;
        }
        assert(pin == run_end(mask, start));
        let ghost run = (start, pin);
        let ghost before = out@;
        proof {
            reveal_strlit(",");
            reveal_strlit("-");
            text::lemma_join_push(run_texts(done), run_text(run), ',');
            assert(run_texts(done.push(run)) =~= run_texts(done).push(run_text(run)));
            assert(done + (seq![run] + runs_from(mask, pin as nat + 1)) =~= done.push(run)
                + runs_from(mask, pin as nat + 1));
        }
        if !first {
            out.append(",");
        }
        push_decimal(&mut out, start as u64);
        if start != pin {
            out.append("-");
            push_decimal(&mut out, pin as u64);
        }
        assert(out@ =~= text::join(run_texts(done.push(run)), ','));
        proof {
            done = done.push(run);
        }
        first = false;
        pin = pin + 1;
    }
    assert(runs_from(mask, 0) =~= done);
    out
}

/// The pins of the two lines of a readable profile; the first that is wrong decides.
pub open spec fn profile_pins(available: Seq<char>, reserved: Seq<char>) -> Result<
    (Set<u8>, Set<u8>),
    PinRangeErrorSpec,
> {
    match (ranges_pins(available), ranges_pins(reserved)) {
        (Err(e), _) => Err(e),
        (_, Err(e)) => Err(e),
        (Ok(a), Ok(r)) => Ok((a, r)),
    }
}

/// A profile stands for the pins of a readable profile, or an error for the error.
pub open spec fn profile_reads_as(
    r: Result<BoardProfile, PinRangeError>,
    expected: Result<(Set<u8>, Set<u8>), PinRangeErrorSpec>,
) -> bool {
    match (r, expected) {
        (Ok(profile), Ok((a, r))) => bits::pin_set(profile.available) == a && bits::pin_set(
            profile.reserved,
        ) == r,
        (Err(e), Err(f)) => e@ == f,
        _ => false,
    }
}

impl TomlBoardProfile {
    /// Convert into the wire type.
    pub fn into_profile(self) -> (r: Result<BoardProfile, PinRangeError>)
        ensures
            profile_reads_as(r, profile_pins(self.available@, self.reserved@)),
    {
        let available: u64 = parse_pin_ranges(self.available.as_str())?;
        let reserved: u64 = parse_pin_ranges(self.reserved.as_str())?;
        Ok(BoardProfile { available, reserved })
    }

    /// Build from the wire type.
    pub fn from_profile(profile: &BoardProfile) -> (r: TomlBoardProfile)
        ensures
            r.available@ == mask_text(profile.available),
            r.reserved@ == mask_text(profile.reserved),
    {
        TomlBoardProfile {
            available: format_pin_ranges(profile.available),
            reserved: format_pin_ranges(profile.reserved),
        }
    }
}

impl PinRangeErrorSpec {
    /// The error in words.
    pub open spec fn message(self) -> Seq<char> {
        match self {
            PinRangeErrorSpec::InvalidPin(text) => "invalid pin number \""@ + text + "\""@,
            PinRangeErrorSpec::OutOfRange(pin) => "pin "@ + text::decimal(pin as nat)
                + " out of range (max 63)"@,
            PinRangeErrorSpec::Descending(part) => "descending pin range \""@ + part + "\""@,
        }
    }
}

impl PinRangeError {
    /// The error in words.
    pub fn message(&self) -> (r: String)
        ensures
            r@ == self@.message(),
    {
        let mut out = String::new();
        match self {
            PinRangeError::InvalidPin(text) => {
                out.append("invalid pin number \"");
                out.append(text.as_str());
                out.append("\"");
            },
            PinRangeError::OutOfRange(pin) => {
                out.append("pin ");
                push_decimal(&mut out, *pin as u64);
                out.append(" out of range (max 63)");
            },
            PinRangeError::Descending(part) => {
                out.append("descending pin range \"");
                out.append(part.as_str());
                out.append("\"");
            },
        }
        assert(out@ =~= self@.message());
        out
    }
}

/// `pin` lies in one of the runs.
spec fn covered(runs: Seq<(u8, u8)>, pin: u8) -> bool {
    exists|i: int| 0 <= i < runs.len() && (#[trigger] runs[i]).0 <= pin <= runs[i].1
}

/// The runs of a mask hold exactly its pins.
proof fn lemma_runs_cover(mask: u64, pin: nat)
    ensures
        forall|i: int|
            0 <= i < runs_from(mask, pin).len() ==> (#[trigger] runs_from(mask, pin)[i]).0
                <= runs_from(mask, pin)[i].1 <= 63,
        forall|q: u8| #[trigger]
            covered(runs_from(mask, pin), q) == (q >= pin && bits::has_pin(mask, q)),
    decreases 64 - pin,
{
    let runs = runs_from(mask, pin);
    if pin >= 64 {
        assert(forall|q: u8| !covered(runs, q));
    } else if !bits::has_pin(mask, pin as u8) {
        lemma_runs_cover(mask, pin + 1);
        assert forall|q: u8| #[trigger]
            covered(runs, q) == (q >= pin && bits::has_pin(mask, q)) by {
            assert(covered(runs_from(mask, pin + 1), q) <==> (q >= pin + 1 && bits::has_pin(
                mask,
                q,
            )));
            if q == pin {
                assert(q == pin as u8);
            }
        }
    } else {
        lemma_run_end(mask, pin as u8);
        let end = run_end(mask, pin as u8);
        let rest = runs_from(mask, (end + 1) as nat);
        lemma_runs_cover(mask, (end + 1) as nat);
        assert(runs =~= seq![(pin as u8, end)] + rest);
        assert(runs[0] == (pin as u8, end));
        assert(forall|i: int| 0 < i < runs.len() ==> runs[i] == rest[i - 1]);
        assert forall|q: u8| #[trigger]
            covered(runs, q) == (q >= pin && bits::has_pin(mask, q)) by {
            if covered(runs, q) {
                let i = choose|i: int|
                    0 <= i < runs.len() && (#[trigger] runs[i]).0 <= q <= runs[i].1;
                if i > 0 {
                    assert(rest[i - 1].0 <= q <= rest[i - 1].1);
                    assert(covered(rest, q));
                } else {
                    assert(pin as u8 <= q <= end);
                }
            }
            if q >= pin && bits::has_pin(mask, q) {
                if q <= end {
                    assert(runs[0].0 <= q <= runs[0].1);
                } else {
                    assert(covered(rest, q));
                    let i = choose|i: int|
                        0 <= i < rest.len() && (#[trigger] rest[i]).0 <= q <= rest[i].1;
                    assert(runs[i + 1].0 <= q <= runs[i + 1].1);
                }
            }
        }
    }
}

/// Decimal pins are visible text without marks, and name the pin.
proof fn lemma_pin_text(pin: u8)
    requires
        pin <= 63,
    ensures
        pin_of(text::decimal(pin as nat)) == Ok::<u8, PinRangeErrorSpec>(pin),
        text::decimal(pin as nat).len() > 0,
        text::all_digits(text::decimal(pin as nat)),
{
    let s = text::decimal(pin as nat);
    text::lemma_decimal(pin as nat);
    assert(text::is_digit(s[0]));
    assert(text::is_digit(s[s.len() - 1]));
    text::lemma_visible(s[0]);
    text::lemma_visible(s.last());
    text::lemma_trim_visible(s);
}

/// The text of a run reads back as the run.
proof fn lemma_run_text(run: (u8, u8))
    requires
        run.0 <= run.1 <= 63,
    ensures
        text::trim(run_text(run)) == run_text(run),
        run_text(run).len() > 0,
        !run_text(run).contains(','),
        range_of(run_text(run)) == Ok::<(u8, u8), PinRangeErrorSpec>(run),
{
    let s = run_text(run);
    let lo = text::decimal(run.0 as nat);
    let hi = text::decimal(run.1 as nat);
    lemma_pin_text(run.0);
    lemma_pin_text(run.1);
    assert(text::is_digit(lo[0]) && text::is_digit(lo[lo.len() - 1]));
    assert(text::is_digit(hi[0]) && text::is_digit(hi[hi.len() - 1]));
    assert(s[0] == lo[0]);
    assert(s.last() == hi.last());
    text::lemma_visible(s[0]);
    text::lemma_visible(s.last());
    text::lemma_trim_visible(s);
    assert forall|i: int| 0 <= i < s.len() implies s[i] != ',' by {
        if i < lo.len() {
            assert(text::is_digit(lo[i]));
        } else if i > lo.len() {
            assert(text::is_digit(hi[i - lo.len() - 1]));
        }
    }
    let at = lo.len() as int;
    assert forall|i: int| 0 <= i < at implies s[i] != '-' by {
        assert(text::is_digit(lo[i]));
    }
    text::lemma_index_of_at(s, '-', at);
    if run.0 != run.1 {
        assert(s.take(at) =~= lo);
        assert(s.skip(at + 1) =~= hi);
    }
}

/// The texts of runs name the pins of the runs.
proof fn lemma_run_texts_pins(runs: Seq<(u8, u8)>)
    requires
        forall|i: int| 0 <= i < runs.len() ==> (#[trigger] runs[i]).0 <= runs[i].1 <= 63,
    ensures
        parts_pins(run_texts(runs)) == Ok::<Set<u8>, PinRangeErrorSpec>(
            Set::new(|q: u8| covered(runs, q)),
        ),
    decreases runs.len(),
{
    let all = Set::new(|q: u8| covered(runs, q));
    if runs.len() == 0 {
        assert(all =~= Set::empty());
    } else {
        let shorter = runs.drop_last();
        assert(forall|i: int| 0 <= i < shorter.len() ==> #[trigger] shorter[i] == runs[i]);
        lemma_run_texts_pins(shorter);
        assert(run_texts(runs).drop_last() =~= run_texts(shorter));
        let last = runs[runs.len() - 1];
        lemma_run_text(last);
        let before = Set::new(|q: u8| covered(shorter, q));
        assert forall|q: u8| all.contains(q) <==> before.union(
            pins_between(last.0, last.1),
        ).contains(q) by {
            if covered(runs, q) && !(last.0 <= q <= last.1) {
                let i = choose|i: int|
                    0 <= i < runs.len() && (#[trigger] runs[i]).0 <= q <= runs[i].1;
                assert(shorter[i].0 <= q <= shorter[i].1);
            }
            if covered(shorter, q) {
                let i = choose|i: int|
                    0 <= i < shorter.len() && (#[trigger] shorter[i]).0 <= q <= shorter[i].1;
                assert(runs[i].0 <= q <= runs[i].1);
            }
            if last.0 <= q <= last.1 {
                assert(runs[runs.len() - 1].0 <= q <= runs[runs.len() - 1].1);
            }
        }
        assert(all =~= before.union(pins_between(last.0, last.1)));
    }
}

/// Reading what [`format_pin_ranges`] writes gives back the pins of the mask.
pub proof fn pin_ranges_read_back(mask: u64)
    ensures
        ranges_pins(mask_text(mask)) == Ok::<Set<u8>, PinRangeErrorSpec>(bits::pin_set(mask)),
{
    let runs = runs_from(mask, 0);
    let parts = run_texts(runs);
    lemma_runs_cover(mask, 0);
    lemma_run_texts_pins(runs);
    assert(Set::new(|q: u8| covered(runs, q)) =~= bits::pin_set(mask));
    if runs.len() == 0 {
        let s = mask_text(mask);
        assert(s.len() == 0);
        let pieces = text::split(s, ',');
        assert(pieces =~= seq![s]);
        assert(pieces.drop_last() =~= Seq::empty());
        assert(text::trim(pieces.last()).len() == 0);
        assert(parts_pins(pieces.drop_last()) == Ok::<Set<u8>, PinRangeErrorSpec>(Set::empty()));
        assert(bits::pin_set(mask) =~= Set::empty());
    } else {
        assert forall|i: int| 0 <= i < parts.len() implies !(#[trigger] parts[i]).contains(
            ',',
        ) by {
            lemma_run_text(runs[i]);
        }
        text::lemma_split_join(parts, ',');
    }
}

/// A profile that was written in readable form and read again is the same profile.
pub proof fn profiles_read_back(profile: BoardProfile, r: Result<BoardProfile, PinRangeError>)
    requires
        profile_reads_as(
            r,
            profile_pins(mask_text(profile.available), mask_text(profile.reserved)),
        ),
    ensures
        r == Ok::<BoardProfile, PinRangeError>(profile),
{
    pin_ranges_read_back(profile.available);
    pin_ranges_read_back(profile.reserved);
    let back = r->Ok_0;
    assert forall|pin: u8|
        bits::has_pin(back.available, pin) == bits::has_pin(profile.available, pin) by {
        assert(bits::pin_set(back.available).contains(pin) == bits::pin_set(
            profile.available,
        ).contains(pin));
    }
    assert forall|pin: u8|
        bits::has_pin(back.reserved, pin) == bits::has_pin(profile.reserved, pin) by {
        assert(bits::pin_set(back.reserved).contains(pin) == bits::pin_set(
            profile.reserved,
        ).contains(pin));
    }
    bits::lemma_same_pins(back.available, profile.available);
    bits::lemma_same_pins(back.reserved, profile.reserved);
}

/// What two lists of parts name together.
proof fn lemma_parts_pins_joined(parts: Seq<Seq<char>>, more: Seq<Seq<char>>)
    ensures
        parts_pins(parts + more) == match (parts_pins(parts), parts_pins(more)) {
            (Err(e), _) => Err(e),
            (_, Err(e)) => Err(e),
            (Ok(pins), Ok(others)) => Ok(pins.union(others)),
        },
    decreases more.len(),
{
    if parts_pins(parts) is Err {
        lemma_parts_pins_prefix(parts, more);
    } else if more.len() == 0 {
        assert(parts + more =~= parts);
        assert(parts_pins(parts)->Ok_0.union(Set::empty()) =~= parts_pins(parts)->Ok_0);
    } else {
        lemma_parts_pins_joined(parts, more.drop_last());
        assert((parts + more).drop_last() =~= parts + more.drop_last());
        let part = text::trim(more.last());
        if parts_pins(more) is Ok && part.len() > 0 {
            let pins = parts_pins(parts)->Ok_0;
            let others = parts_pins(more.drop_last())->Ok_0;
            let (lo, hi) = range_of(part)->Ok_0;
            let last = pins_between(lo, hi);
            assert(pins.union(others).union(last) =~= pins.union(others.union(last)));
        }
    }
}

/// Two pin-range strings with a comma between them name the pins of both, and are wrong
/// if either is: the first that is wrong decides.
pub proof fn joined_ranges_name_both(
    a: Seq<char>,
    b: Seq<char>,
    ra: Result<u64, PinRangeError>,
    rb: Result<u64, PinRangeError>,
    r: Result<u64, PinRangeError>,
)
    requires
        reads_as(ra, ranges_pins(a)),
        reads_as(rb, ranges_pins(b)),
        reads_as(r, ranges_pins(a + seq![','] + b)),
    ensures
        match (ra, rb) {
            (Ok(x), Ok(y)) => r == Ok::<u64, PinRangeError>(x | y),
            (Err(e), _) => r matches Err(f) && f@ == e@,
            (Ok(_), Err(e)) => r matches Err(f) && f@ == e@,
        },
{
    text::lemma_split_joined(a, b, ',');
    lemma_parts_pins_joined(text::split(a, ','), text::split(b, ','));
    if ra is Ok && rb is Ok {
        let x = ra->Ok_0;
        let y = rb->Ok_0;
        let mask = r->Ok_0;
        assert forall|pin: u8| bits::has_pin(mask, pin) == bits::has_pin(x | y, pin) by {
            bits::lemma_union_pins(x, y, pin);
            assert(bits::pin_set(mask).contains(pin) == bits::pin_set(x).union(
                bits::pin_set(y),
            ).contains(pin));
        }
        bits::lemma_same_pins(mask, x | y);
    }
}

/// The pin that a number with blanks round it names: the number, if it is at most 63. A
/// larger one that fits a byte is out of range, and any other is no pin.
pub proof fn numbers_name_pins(before: Seq<char>, n: nat, after: Seq<char>)
    requires
        text::blank(before),
        text::blank(after),
    ensures
        ({
            let whole = before + text::decimal(n) + after;
            &&& n <= 63 ==> pin_of(whole) == Ok::<u8, PinRangeErrorSpec>(n as u8)
            &&& 64 <= n <= 255 ==> pin_of(whole) == Err::<u8, PinRangeErrorSpec>(
                PinRangeErrorSpec::OutOfRange(n as u8),
            )
            &&& n > 255 ==> pin_of(whole) == Err::<u8, PinRangeErrorSpec>(
                PinRangeErrorSpec::InvalidPin(whole),
            )
        }),
{
    let s = text::decimal(n);
    text::lemma_decimal(n);
    assert(text::is_digit(s[0]));
    assert(text::is_digit(s[s.len() - 1]));
    text::lemma_visible(s[0]);
    text::lemma_visible(s.last());
    text::trimming_takes_the_blanks(before, s, after);
}

/// Text with a visible character in it that is no digit, other than a plus sign in front,
/// names no pin; neither does blank text.
pub proof fn other_text_names_no_pin(s: Seq<char>)
    requires
        text::trim(s).len() == 0 || exists|i: int|
            0 <= i < text::trim(s).len() && !text::is_digit(#[trigger] text::trim(s)[i]) && (i > 0
                || text::trim(s)[i] != '+'),
    ensures
        pin_of(s) == Err::<u8, PinRangeErrorSpec>(PinRangeErrorSpec::InvalidPin(s)),
{
    let core = text::trim(s);
    if core.len() > 0 {
        let i = choose|i: int|
            0 <= i < core.len() && !text::is_digit(#[trigger] core[i]) && (i > 0 || core[i] != '+');
        if core[0] == '+' {
            assert(core.skip(1)[i - 1] == core[i]);
        }
    }
}

/// Text without a comma is a single part.
proof fn lemma_one_part(s: Seq<char>)
    requires
        !s.contains(','),
    ensures
        ranges_pins(s) == if text::trim(s).len() == 0 {
            Ok(Set::empty())
        } else {
            match range_of(text::trim(s)) {
                Err(e) => Err(e),
                Ok((lo, hi)) => Ok(pins_between(lo, hi)),
            }
        },
{
    assert(forall|i: int| 0 <= i < s.len() ==> s.contains(#[trigger] s[i]));
    text::lemma_index_of_at(s, ',', s.len() as int);
    let parts = text::split(s, ',');
    assert(parts =~= seq![s]);
    assert(parts.drop_last() =~= Seq::empty());
    assert(parts_pins(parts.drop_last()) == Ok::<Set<u8>, PinRangeErrorSpec>(Set::empty()));
    if text::trim(s).len() > 0 {
        if let Ok((lo, hi)) = range_of(text::trim(s)) {
            assert(Set::empty().union(pins_between(lo, hi)) =~= pins_between(lo, hi));
        }
    }
}

/// Blanks round a part change nothing.
pub proof fn blanks_round_parts_do_not_matter(
    before: Seq<char>,
    part: Seq<char>,
    after: Seq<char>,
)
    requires
        text::blank(before),
        text::blank(after),
        !part.contains(','),
        part.len() > 0 ==> !text::is_white_space(part[0]) && !text::is_white_space(part.last()),
    ensures
        ranges_pins(before + part + after) == ranges_pins(part),
{
    let whole = before + part + after;
    assert forall|i: int| 0 <= i < whole.len() implies whole[i] != ',' by {
        if i < before.len() {
            assert(text::is_white_space(before[i]));
        } else if i < before.len() + part.len() {
            assert(part.contains(part[i - before.len()]));
        } else {
            assert(text::is_white_space(after[i - before.len() - part.len()]));
        }
    }
    lemma_one_part(whole);
    lemma_one_part(part);
    text::trimming_takes_the_blanks(before, part, after);
    text::trimming_takes_the_blanks(Seq::empty(), part, Seq::empty());
    assert(Seq::<char>::empty() + part + Seq::<char>::empty() =~= part);
}

/// A range names the pins from its first to its last number, both included, and no others;
/// one that ends before it starts is descending.
pub proof fn ranges_name_the_pins_between(lo: u8, hi: u8, pin: u8)
    requires
        lo <= 63,
        hi <= 63,
    ensures
        ({
            let range = text::decimal(lo as nat) + seq!['-'] + text::decimal(hi as nat);
            &&& lo <= hi ==> (ranges_pins(range) matches Ok(pins) && (pins.contains(pin) <==> lo
                <= pin <= hi))
            &&& lo > hi ==> ranges_pins(range) == Err::<Set<u8>, PinRangeErrorSpec>(
                PinRangeErrorSpec::Descending(range),
            )
        }),
        ranges_pins(text::decimal(lo as nat)) matches Ok(pins) && (pins.contains(pin) <==> pin
            == lo),
{
    let a = text::decimal(lo as nat);
    let b = text::decimal(hi as nat);
    let range = a + seq!['-'] + b;
    let at = a.len() as int;
    lemma_run_text((lo, lo));
    lemma_one_part(a);
    lemma_pin_text(lo);
    lemma_pin_text(hi);
    assert(text::is_digit(a[0]) && text::is_digit(b[b.len() - 1]));
    assert(range[0] == a[0]);
    assert(range.last() == b.last());
    text::lemma_visible(range[0]);
    text::lemma_visible(range.last());
    text::lemma_trim_visible(range);
    assert forall|i: int| 0 <= i < range.len() implies range[i] != ',' && (i < at ==> range[i]
        != '-') by {
        if i < at {
            assert(text::is_digit(a[i]));
        } else if i > at {
            assert(text::is_digit(b[i - at - 1]));
        }
    }
    text::lemma_index_of_at(range, '-', at);
    assert(range.take(at) =~= a);
    assert(range.skip(at + 1) =~= b);
    lemma_one_part(range);
}

/// What holds of the runs from `pin` up.
proof fn lemma_runs_apart(mask: u64, pin: nat, i: int)
    requires
        0 <= i < runs_from(mask, pin).len(),
    ensures
        pin <= runs_from(mask, pin)[i].0,
        i + 1 < runs_from(mask, pin).len() ==> runs_from(mask, pin)[i].1 + 1 < runs_from(
            mask,
            pin,
        )[i + 1].0,
    decreases 64 - pin,
{
    if pin < 64 {
        if !bits::has_pin(mask, pin as u8) {
            lemma_runs_apart(mask, pin + 1, i);
        } else {
            lemma_run_end(mask, pin as u8);
            let end = run_end(mask, pin as u8);
            let rest = runs_from(mask, (end + 1) as nat);
            let runs = runs_from(mask, pin);
            assert(runs =~= seq![(pin as u8, end)] + rest);
            if i > 0 {
                lemma_runs_apart(mask, (end + 1) as nat, i - 1);
            } else if rest.len() > 0 {
                lemma_runs_apart(mask, (end + 1) as nat, 0);
                lemma_runs_cover(mask, (end + 1) as nat);
                let first = rest[0].0;
                assert(rest[0].0 <= first <= rest[0].1);
                assert(covered(rest, first));
            }
        }
    }
}

/// A mask is written in one way only: as its runs of neighbouring pins in ascending order,
/// none of which touches the next, each as one number or as the first and the last, with
/// commas between them.
pub proof fn masks_are_written_canonically(mask: u64, i: int)
    ensures
        text::join(run_texts(runs_from(mask, 0)), ',') == mask_text(mask),
        0 <= i < runs_from(mask, 0).len() ==> ({
            let runs = runs_from(mask, 0);
            let (lo, hi) = runs[i];
            &&& lo <= hi <= 63
            &&& forall|pin: u8| lo <= pin <= hi ==> bits::has_pin(mask, pin)
            &&& i + 1 < runs.len() ==> hi + 1 < runs[i + 1].0
            &&& lo == hi ==> run_text(runs[i]) == text::decimal(lo as nat)
            &&& lo < hi ==> run_text(runs[i]) == text::decimal(lo as nat) + seq!['-']
                + text::decimal(hi as nat)
        }),
{
    let runs = runs_from(mask, 0);
    if 0 <= i < runs.len() {
        lemma_runs_cover(mask, 0);
        lemma_runs_apart(mask, 0, i);
        assert forall|pin: u8| runs[i].0 <= pin <= runs[i].1 implies bits::has_pin(mask, pin) by {
            assert(runs[i].0 <= pin <= runs[i].1);
            assert(covered(runs, pin));
        }
    }
}

/// The two lines of a readable profile are read each for itself, and give the available and
/// the reserved pins.
pub proof fn profile_lines_are_read_apart(
    available: Seq<char>,
    reserved: Seq<char>,
    r: Result<BoardProfile, PinRangeError>,
)
    requires
        profile_reads_as(r, profile_pins(available, reserved)),
    ensures
        r is Ok <==> ranges_pins(available) is Ok && ranges_pins(reserved) is Ok,
        r matches Ok(profile) ==> ranges_pins(available) == Ok::<Set<u8>, PinRangeErrorSpec>(
            bits::pin_set(profile.available),
        ) && ranges_pins(reserved) == Ok::<Set<u8>, PinRangeErrorSpec>(
            bits::pin_set(profile.reserved),
        ),
        r matches Err(e) ==> if ranges_pins(available) is Err {
            ranges_pins(available) == Err::<Set<u8>, PinRangeErrorSpec>(e@)
        } else {
            ranges_pins(reserved) == Err::<Set<u8>, PinRangeErrorSpec>(e@)
        },
{
}

/// A message tells the text or the pin that is wrong.
pub proof fn messages_tell_what_is_wrong(part: Seq<char>, pin: u8)
    ensures
        PinRangeErrorSpec::InvalidPin(part).message().subrange(20, 20int + part.len()) == part,
        PinRangeErrorSpec::Descending(part).message().subrange(22, 22int + part.len()) == part,
        PinRangeErrorSpec::OutOfRange(pin).message().subrange(
            4,
            4int + text::decimal(pin as nat).len(),
        ) == text::decimal(pin as nat),
{
    reveal_strlit("invalid pin number \"");
    reveal_strlit("descending pin range \"");
    reveal_strlit("pin ");
    let number = text::decimal(pin as nat);
    assert(PinRangeErrorSpec::InvalidPin(part).message().subrange(20, 20int + part.len()) =~= part);
    assert(PinRangeErrorSpec::Descending(part).message().subrange(22, 22int + part.len()) =~= part);
    assert(PinRangeErrorSpec::OutOfRange(pin).message().subrange(4, 4int + number.len()) =~= number);
}

} // verus!
