//! Formatting durations into human-readable strings.

use std::time::Duration;
use vstd::prelude::*;

use crate::duration::{
    duration_as_secs, duration_subsec_nanos, nanos_per_sec, secs_of, subsec_nanos_of,
};
use crate::error::Error;
use crate::parse::grammar::UnitKind;
use crate::text::{all_digits, dec, lemma_dec, lemma_pad2, pad2, push_char, push_decimal, push_pad2};

verus! {

/// Output style for duration formatting.
#[derive(Debug, Clone, Copy, PartialEq, Eq, Structural)]
pub enum FormatStyle {
    /// Compact format with minimal spacing (e.g., "2h30m45s")
    Compact,
    /// Spaced format with spaces between components (e.g., "2h 30m 45s")
    Spaced,
    /// Long format with full unit names (e.g., "2 hours 30 minutes 45 seconds")
    Long,
    /// Clock format (e.g., "02:30:45" or "30:45")
    Clock,
}

/// Precision level for duration formatting.
#[derive(Debug, Clone, Copy, PartialEq, Eq, Structural)]
pub enum Precision {
    /// Show all non-zero components
    Full,
    /// Show up to seconds (ignore milliseconds and smaller)
    Seconds,
    /// Show up to minutes (ignore seconds and smaller)
    Minutes,
    /// Show up to hours (ignore minutes and smaller)
    Hours,
}

/// Builder for formatting durations with custom options.
#[derive(Debug, Clone)]
pub struct DurationFormatter {
    style: FormatStyle,
    precision: Precision,
}

/// The short name of a unit, as in `"1h"`.
pub open spec fn short_name(k: UnitKind) -> Seq<char> {
    match k {
        UnitKind::Nanos => "ns"@,
        UnitKind::Micros => "us"@,
        UnitKind::Millis => "ms"@,
        UnitKind::Secs => "s"@,
        UnitKind::Mins => "m"@,
        UnitKind::Hours => "h"@,
        UnitKind::Days => "d"@,
    }
}

/// The singular name of a unit, as in `"1 hour"`.
pub open spec fn singular_name(k: UnitKind) -> Seq<char> {
    match k {
        UnitKind::Nanos => "nanosecond"@,
        UnitKind::Micros => "microsecond"@,
        UnitKind::Millis => "millisecond"@,
        UnitKind::Secs => "second"@,
        UnitKind::Mins => "minute"@,
        UnitKind::Hours => "hour"@,
        UnitKind::Days => "day"@,
    }
}

/// The plural name of a unit, as in `"2 hours"`.
pub open spec fn plural_name(k: UnitKind) -> Seq<char> {
    match k {
        UnitKind::Nanos => "nanoseconds"@,
        UnitKind::Micros => "microseconds"@,
        UnitKind::Millis => "milliseconds"@,
        UnitKind::Secs => "seconds"@,
        UnitKind::Mins => "minutes"@,
        UnitKind::Hours => "hours"@,
        UnitKind::Days => "days"@,
    }
}

/// One component, such as `"5s"` or `"5 seconds"`.
pub open spec fn component_text(
    v: nat,
    short: Seq<char>,
    singular: Seq<char>,
    plural: Seq<char>,
    style: FormatStyle,
) -> Seq<char> {
    if style == FormatStyle::Long {
        dec(v) + seq![' '] + (if v == 1 {
            singular
        } else {
            plural
        })
    } else {
        dec(v) + short
    }
}

pub open spec fn unit_text(k: UnitKind, v: nat, style: FormatStyle) -> Seq<char> {
    component_text(v, short_name(k), singular_name(k), plural_name(k), style)
}

pub open spec fn optional<A>(present: bool, a: A) -> Seq<A> {
    if present {
        seq![a]
    } else {
        Seq::empty()
    }
}

/// The components shown, largest first, given the count of each unit: the
/// nonzero ones down to the precision.
pub open spec fn shown_from(
    days: nat,
    hours: nat,
    minutes: nat,
    seconds: nat,
    millis: nat,
    micros: nat,
    nanos: nat,
    p: Precision,
) -> Seq<(UnitKind, nat)> {
    Seq::empty() + optional(days > 0, (UnitKind::Days, days)) + optional(
        hours > 0,
        (UnitKind::Hours, hours),
    ) + optional(minutes > 0 && p != Precision::Hours, (UnitKind::Mins, minutes)) + optional(
        seconds > 0 && (p == Precision::Full || p == Precision::Seconds),
        (UnitKind::Secs, seconds),
    ) + optional(millis > 0 && p == Precision::Full, (UnitKind::Millis, millis)) + optional(
        micros > 0 && p == Precision::Full,
        (UnitKind::Micros, micros),
    ) + optional(nanos > 0 && p == Precision::Full, (UnitKind::Nanos, nanos))
}

/// The components shown of a duration of `secs` seconds and `nanos`
/// nanoseconds at a precision.
pub open spec fn shown_components(secs: nat, nanos: nat, p: Precision) -> Seq<(UnitKind, nat)> {
    shown_from(
        secs / 86400,
        (secs % 86400) / 3600,
        (secs % 3600) / 60,
        secs % 60,
        nanos / 1_000_000,
        (nanos % 1_000_000) / 1000,
        nanos % 1000,
        p,
    )
}

/// The texts of a list of components, in order.
pub open spec fn component_texts(cs: Seq<(UnitKind, nat)>, style: FormatStyle) -> Seq<Seq<char>> {
    cs.map_values(|c: (UnitKind, nat)| unit_text(c.0, c.1, style))
}

/// The texts joined by a separator.
pub open spec fn join(list: Seq<Seq<char>>, sep: Seq<char>) -> Seq<char>
    decreases list.len(),
{
    if list.len() == 0 {
        Seq::empty()
    } else if list.len() == 1 {
        list[0]
    } else {
        join(list.drop_last(), sep) + sep + list.last()
    }
}

pub open spec fn separator(style: FormatStyle) -> Seq<char> {
    if style == FormatStyle::Compact {
        Seq::empty()
    } else {
        seq![' ']
    }
}

/// What a duration with nothing to show is written as.
pub open spec fn zero_text(style: FormatStyle) -> Seq<char> {
    if style == FormatStyle::Long {
        "0 seconds"@
    } else {
        "0s"@
    }
}

/// The unit-based text of a duration.
pub open spec fn unit_based_text(secs: nat, nanos: nat, style: FormatStyle, p: Precision) -> Seq<
    char,
> {
    let cs = shown_components(secs, nanos, p);
    if cs.len() == 0 {
        zero_text(style)
    } else {
        join(component_texts(cs, style), separator(style))
    }
}

/// The clock text of a duration of `secs` seconds: `HH:MM:SS`, or `MM:SS`
/// below one hour.
pub open spec fn clock_text(secs: nat) -> Seq<char> {
    let h = secs / 3600;
    let m = (secs % 3600) / 60;
    let s = secs % 60;
    if h > 0 {
        pad2(h) + seq![':'] + pad2(m) + seq![':'] + pad2(s)
    } else {
        pad2(m) + seq![':'] + pad2(s)
    }
}

/// The text of a duration in a style at a precision.
pub open spec fn format_text(secs: nat, nanos: nat, style: FormatStyle, p: Precision) -> Seq<
    char,
> {
    if style == FormatStyle::Clock {
        clock_text(secs)
    } else {
        unit_based_text(secs, nanos, style, p)
    }
}

/// The length, in nanoseconds, of the part of a duration of `secs` seconds
/// and `nanos` nanoseconds that a style and precision show: whole seconds in
/// the clock style; otherwise everything, whole seconds, whole minutes or
/// whole hours.
pub open spec fn shown_nanos(secs: nat, nanos: nat, style: FormatStyle, p: Precision) -> nat {
    if style == FormatStyle::Clock {
        secs * nanos_per_sec()
    } else {
        match p {
            Precision::Full => secs * nanos_per_sec() + nanos,
            Precision::Seconds => secs * nanos_per_sec(),
            Precision::Minutes => (secs / 60) * 60 * nanos_per_sec(),
            Precision::Hours => (secs / 3600) * 3600 * nanos_per_sec(),
        }
    }
}

/// The text of a duration in a style at a precision.
pub open spec fn duration_text(d: Duration, style: FormatStyle, p: Precision) -> Seq<char> {
    format_text(secs_of(d) as nat, subsec_nanos_of(d) as nat, style, p)
}

impl Default for DurationFormatter {
    fn default() -> (r: Self)
        ensures
            r.style_spec() == FormatStyle::Spaced,
            r.precision_spec() == Precision::Seconds,
    {
        DurationFormatter { style: FormatStyle::Spaced, precision: Precision::Seconds }
    }
}

impl DurationFormatter {
    /// The configured style.
    pub closed spec fn style_spec(self) -> FormatStyle {
        self.style
    }

    /// The configured precision.
    pub closed spec fn precision_spec(self) -> Precision {
        self.precision
    }

    /// Creates a new formatter with default settings: spaced style, seconds precision.
    pub fn new() -> (r: Self)
        ensures
            r.style_spec() == FormatStyle::Spaced,
            r.precision_spec() == Precision::Seconds,
    {
        Self::default()
    }

    /// Sets the formatting style.
    pub fn style(self, style: FormatStyle) -> (r: Self)
        ensures
            r.style_spec() == style,
            r.precision_spec() == self.precision_spec(),
    {
        let mut this = self;
        this.style = style;
        this
    }

    /// Sets the precision level.
    pub fn precision(self, precision: Precision) -> (r: Self)
        ensures
            r.style_spec() == self.style_spec(),
            r.precision_spec() == precision,
    {
        let mut this = self;
        this.precision = precision;
        this
    }

    /// Formats a duration according to the configured options; this never fails.
    pub fn format(&self, duration: Duration) -> (r: Result<String, Error>)
        ensures
            r matches Ok(s) && s@ == duration_text(duration, self.style_spec(), self.precision_spec()),
    {
        match self.style {
            FormatStyle::Clock => self.format_clock(duration),
            _ => self.format_unit_based(duration),
        }
    }

    /// Formats a duration in clock format (HH:MM:SS or MM:SS).
    fn format_clock(&self, duration: Duration) -> (r: Result<String, Error>)
        ensures
            r matches Ok(s) && s@ == clock_text(secs_of(duration) as nat),
    {
        let total_seconds = duration_as_secs(&duration);
        let hours = total_seconds / 3600;
        let minutes = (total_seconds % 3600) / 60;
        let seconds = total_seconds % 60;
        let mut s = String::new();
        if hours > 0 {
            push_pad2(&mut s, hours);
            push_char(&mut s, ':');
        }
        push_pad2(&mut s, minutes);
        push_char(&mut s, ':');
        push_pad2(&mut s, seconds);
        proof {
            assert(s@ =~= clock_text(total_seconds as nat));
        }
        Ok(s)
    }

    /// Appends one component, after a separator unless it is the first.
    fn push_component(&self, out: &mut String, first: bool, value: u64, k: UnitKind)
        requires
            self.style != FormatStyle::Clock,
        ensures
            final(out)@ == old(out)@ + (if first {
                Seq::empty()
            } else {
                separator(self.style)
            }) + unit_text(k, value as nat, self.style),
    {
        if !first {
            match self.style {
                FormatStyle::Compact => {},
                _ => push_char(out, ' '),
            }
        }
        let ghost mid = out@;
        let text = match k {
            UnitKind::Days => self.format_component(value, "d", "day", "days"),
            UnitKind::Hours => self.format_component(value, "h", "hour", "hours"),
            UnitKind::Mins => self.format_component(value, "m", "minute", "minutes"),
            UnitKind::Secs => self.format_component(value, "s", "second", "seconds"),
            UnitKind::Millis => self.format_component(value, "ms", "millisecond", "milliseconds"),
            UnitKind::Micros => self.format_component(value, "us", "microsecond", "microseconds"),
            UnitKind::Nanos => self.format_component(value, "ns", "nanosecond", "nanoseconds"),
        };
        out.append(text.as_str());
        proof {
            assert(out@ =~= old(out)@ + (if first {
                Seq::empty()
            } else {
                separator(self.style)
            }) + unit_text(k, value as nat, self.style));
        }
    }

    /// Formats a duration in unit-based format.
    fn format_unit_based(&self, duration: Duration) -> (r: Result<String, Error>)
        requires
            self.style != FormatStyle::Clock,
        ensures
            r matches Ok(s) && s@ == unit_based_text(
                secs_of(duration) as nat,
                subsec_nanos_of(duration) as nat,
                self.style,
                self.precision,
            ),
    {
        let total_seconds = duration_as_secs(&duration);
        let subsec_nanos = duration_subsec_nanos(&duration);
        let ghost cs = shown_components(total_seconds as nat, subsec_nanos as nat, self.precision);

        if total_seconds == 0 && subsec_nanos == 0 {
            assert(cs.len() == 0);
            return Ok(self.zero_string());
        }
        let (days, hours, minutes, seconds) = split_seconds(total_seconds);
        let (millis, micros, nanos) = split_nanos(subsec_nanos);
        let show_minutes = !matches!(self.precision, Precision::Hours);
        let show_seconds = matches!(self.precision, Precision::Full | Precision::Seconds);
        let full = matches!(self.precision, Precision::Full);
        let mut out = String::new();
        let mut count: usize = 0;
        let ghost s0: Seq<(UnitKind, nat)> = Seq::empty();
        assert(out@ =~= join(component_texts(s0, self.style), separator(self.style)));
        self.push_if(&mut out, &mut count, Ghost(s0), days > 0, days, UnitKind::Days);
        let ghost s1 = s0 + optional(days > 0, (UnitKind::Days, days as nat));
        self.push_if(&mut out, &mut count, Ghost(s1), hours > 0, hours, UnitKind::Hours);
        let ghost s2 = s1 + optional(hours > 0, (UnitKind::Hours, hours as nat));
        self.push_if(
            &mut out,
            &mut count,
            Ghost(s2),
            minutes > 0 && show_minutes,
            minutes,
            UnitKind::Mins,
        );
        let ghost s3 = s2 + optional(minutes > 0 && show_minutes, (UnitKind::Mins, minutes as nat));
        self.push_if(
            &mut out,
            &mut count,
            Ghost(s3),
            seconds > 0 && show_seconds,
            seconds,
            UnitKind::Secs,
        );
        let ghost s4 = s3 + optional(seconds > 0 && show_seconds, (UnitKind::Secs, seconds as nat));
        self.push_if(
            &mut out,
            &mut count,
            Ghost(s4),
            millis > 0 && full,
            millis as u64,
            UnitKind::Millis,
        );
        let ghost s5 = s4 + optional(millis > 0 && full, (UnitKind::Millis, millis as nat));
        self.push_if(
            &mut out,
            &mut count,
            Ghost(s5),
            micros > 0 && full,
            micros as u64,
            UnitKind::Micros,
        );
        let ghost s6 = s5 + optional(micros > 0 && full, (UnitKind::Micros, micros as nat));
        self.push_if(&mut out, &mut count, Ghost(s6), nanos > 0 && full, nanos as u64, UnitKind::Nanos);
        let ghost s7 = s6 + optional(nanos > 0 && full, (UnitKind::Nanos, nanos as nat));
        assert(s7 == cs);
        if count == 0 {
            return Ok(self.zero_string());
        }
        Ok(out)
    }

    /// Appends a component if it is shown; `count` components came before it.
    fn push_if(
        &self,
        out: &mut String,
        count: &mut usize,
        Ghost(shown): Ghost<Seq<(UnitKind, nat)>>,
        present: bool,
        value: u64,
        k: UnitKind,
    )
        requires
            self.style != FormatStyle::Clock,
            *old(count) == shown.len() < 7,
            old(out)@ == join(component_texts(shown, self.style), separator(self.style)),
        ensures
            *final(count) == (shown + optional(present, (k, value as nat))).len(),
            final(out)@ == join(
                component_texts(shown + optional(present, (k, value as nat)), self.style),
                separator(self.style),
            ),
    {
        if present {
            self.push_component(out, *count == 0, value, k);
            proof {
                self.lemma_join_push(shown, (k, value as nat));
                assert(shown + optional(present, (k, value as nat)) =~= shown.push((k, value as nat)));
            }
            *count = *count + 1;
        } else {
            assert(shown + optional(present, (k, value as nat)) =~= shown);
        }
    }

    proof fn lemma_join_push(&self, shown: Seq<(UnitKind, nat)>, c: (UnitKind, nat))
        ensures
            join(component_texts(shown.push(c), self.style), separator(self.style)) == join(
                component_texts(shown, self.style),
                separator(self.style),
            ) + (if shown.len() == 0 {
                Seq::empty()
            } else {
                separator(self.style)
            }) + unit_text(c.0, c.1, self.style),
    {
        let t = component_texts(shown.push(c), self.style);
        assert(t.drop_last() =~= component_texts(shown, self.style));
        if shown.len() == 0 {
            assert(join(component_texts(shown, self.style), separator(self.style)) =~= Seq::empty());
            assert(t[0] + Seq::empty() =~= Seq::empty() + Seq::<char>::empty() + t[0]);
        }
    }

    fn zero_string(&self) -> (s: String)
        ensures
            s@ == zero_text(self.style),
    {
        match self.style {
            FormatStyle::Long => String::from_str("0 seconds"),
            _ => String::from_str("0s"),
        }
    }

    /// Formats a single component (value + unit).
    fn format_component(&self, value: u64, short: &str, singular: &str, plural: &str) -> (s: String)
        requires
            self.style != FormatStyle::Clock,
        ensures
            s@ == component_text(value as nat, short@, singular@, plural@, self.style),
    {
        let mut s = String::new();
        push_decimal(&mut s, value);
        match self.style {
            FormatStyle::Long => {
                push_char(&mut s, ' ');
                if value == 1 {
                    s.append(singular);
                } else {
                    s.append(plural);
                }
            },
            _ => {
                s.append(short);
            },
        }
        proof {
            assert(s@ =~= component_text(value as nat, short@, singular@, plural@, self.style));
        }
        s
    }
}

/// Days, hours, minutes and seconds of a number of seconds.
fn split_seconds(total: u64) -> (r: (u64, u64, u64, u64))
    ensures
        r.0 == total / 86400,
        r.1 == (total % 86400) / 3600,
        r.2 == (total % 3600) / 60,
        r.3 == total % 60,
{
    let days = total / 86400;
    let remainder = total % 86400;
    let hours = remainder / 3600;
    let remainder = remainder % 3600;
    let minutes = remainder / 60;
    let seconds = remainder % 60;
    assert((total % 86400) % 3600 == total % 3600) by (nonlinear_arith);
    assert((total % 3600) % 60 == total % 60) by (nonlinear_arith);
    (days, hours, minutes, seconds)
}

/// Milliseconds, microseconds and nanoseconds of a number of nanoseconds.
fn split_nanos(n: u32) -> (r: (u32, u32, u32))
    ensures
        r.0 == n / 1_000_000,
        r.1 == (n % 1_000_000) / 1000,
        r.2 == n % 1000,
{
    let millis = n / 1_000_000;
    let micros = (n % 1_000_000) / 1_000;
    let nanos = n % 1_000;
    (millis, micros, nanos)
}

/// Formats a duration using default settings (spaced, seconds precision).
pub fn format(duration: Duration) -> (s: String)
    ensures
        s@ == duration_text(duration, FormatStyle::Spaced, Precision::Seconds),
{
    match DurationFormatter::new().format(duration) {
        Ok(s) => s,
        Err(_) => String::from_str("0s"),
    }
}

/// Formats a duration in compact style.
pub fn format_compact(duration: Duration) -> (s: String)
    ensures
        s@ == duration_text(duration, FormatStyle::Compact, Precision::Seconds),
{
    match DurationFormatter::new().style(FormatStyle::Compact).format(duration) {
        Ok(s) => s,
        Err(_) => String::from_str("0s"),
    }
}

/// Formats a duration in long style with full unit names.
pub fn format_long(duration: Duration) -> (s: String)
    ensures
        s@ == duration_text(duration, FormatStyle::Long, Precision::Seconds),
{
    match DurationFormatter::new().style(FormatStyle::Long).format(duration) {
        Ok(s) => s,
        Err(_) => String::from_str("0 seconds"),
    }
}

/// Formats a duration in clock format (HH:MM:SS or MM:SS).
pub fn format_clock(duration: Duration) -> (s: String)
    ensures
        s@ == clock_text(secs_of(duration) as nat),
{
    match DurationFormatter::new().style(FormatStyle::Clock).format(duration) {
        Ok(s) => s,
        Err(_) => String::from_str("00:00"),
    }
}

/// How fine a precision is: hours, then minutes, then seconds, then everything.
pub open spec fn precision_rank(p: Precision) -> nat {
    match p {
        Precision::Hours => 0,
        Precision::Minutes => 1,
        Precision::Seconds => 2,
        Precision::Full => 3,
    }
}

/// The text with every space taken out.
pub open spec fn without_spaces(s: Seq<char>) -> Seq<char>
    decreases s.len(),
{
    if s.len() == 0 {
        Seq::empty()
    } else if s.last() == ' ' {
        without_spaces(s.drop_last())
    } else {
        without_spaces(s.drop_last()).push(s.last())
    }
}

spec fn spaceless(s: Seq<char>) -> bool {
    forall|i: int| 0 <= i < s.len() ==> s[i] != ' '
}

proof fn lemma_without_spaces_add(a: Seq<char>, b: Seq<char>)
    ensures
        without_spaces(a + b) == without_spaces(a) + without_spaces(b),
    decreases b.len(),
{
    if b.len() == 0 {
        assert(a + b =~= a);
        assert(without_spaces(a) + without_spaces(b) =~= without_spaces(a));
    } else {
        assert((a + b).drop_last() =~= a + b.drop_last());
        assert((a + b).last() == b.last());
        lemma_without_spaces_add(a, b.drop_last());
        if b.last() != ' ' {
            assert(without_spaces(a) + without_spaces(b.drop_last()).push(b.last()) =~= (
            without_spaces(a) + without_spaces(b.drop_last())).push(b.last()));
        }
    }
}

proof fn lemma_without_spaces_keeps(s: Seq<char>)
    requires
        spaceless(s),
    ensures
        without_spaces(s) == s,
    decreases s.len(),
{
    if s.len() > 0 {
        lemma_without_spaces_keeps(s.drop_last());
        assert(s.drop_last().push(s.last()) =~= s);
    }
}

proof fn lemma_join_without_spaces(list: Seq<Seq<char>>)
    requires
        forall|j: int| 0 <= j < list.len() ==> spaceless(#[trigger] list[j]),
    ensures
        without_spaces(join(list, seq![' '])) == join(list, Seq::empty()),
    decreases list.len(),
{
    let sp = seq![' '];
    if list.len() == 0 {
    } else if list.len() == 1 {
        lemma_without_spaces_keeps(list[0]);
    } else {
        lemma_join_without_spaces(list.drop_last());
        lemma_without_spaces_add(join(list.drop_last(), sp) + sp, list.last());
        lemma_without_spaces_add(join(list.drop_last(), sp), sp);
        assert(sp.drop_last() =~= Seq::<char>::empty());
        assert(sp.last() == ' ');
        assert(without_spaces(Seq::<char>::empty()) =~= Seq::<char>::empty());
        assert(without_spaces(sp) =~= Seq::<char>::empty());
        lemma_without_spaces_keeps(list.last());
        assert(join(list.drop_last(), Seq::empty()) + Seq::empty() + list.last() =~= join(
            list.drop_last(),
            Seq::empty(),
        ) + list.last());
        assert(without_spaces(join(list.drop_last(), sp)) + Seq::empty() =~= without_spaces(
            join(list.drop_last(), sp),
        ));
    }
}

proof fn lemma_short_name_spaceless(k: UnitKind)
    ensures
        spaceless(short_name(k)),
{
    match k {
        UnitKind::Nanos => reveal_strlit("ns"),
        UnitKind::Micros => reveal_strlit("us"),
        UnitKind::Millis => reveal_strlit("ms"),
        UnitKind::Secs => reveal_strlit("s"),
        UnitKind::Mins => reveal_strlit("m"),
        UnitKind::Hours => reveal_strlit("h"),
        UnitKind::Days => reveal_strlit("d"),
    }
}

/// The compact text of a duration is its spaced text with the spaces taken
/// out, at every precision.
pub proof fn law_compact_is_spaced_without_spaces(d: Duration, p: Precision)
    ensures
        duration_text(d, FormatStyle::Compact, p) == without_spaces(
            duration_text(d, FormatStyle::Spaced, p),
        ),
{
    let secs = secs_of(d) as nat;
    let nanos = subsec_nanos_of(d) as nat;
    let cs = shown_components(secs, nanos, p);
    if cs.len() == 0 {
        reveal_strlit("0s");
        lemma_without_spaces_keeps("0s"@);
    } else {
        let texts = component_texts(cs, FormatStyle::Spaced);
        assert(component_texts(cs, FormatStyle::Compact) =~= texts);
        assert forall|j: int| 0 <= j < texts.len() implies spaceless(#[trigger] texts[j]) by {
            let (k, v) = cs[j];
            lemma_dec(v);
            lemma_short_name_spaceless(k);
            assert(texts[j] == dec(v) + short_name(k));
            assert forall|i: int| 0 <= i < texts[j].len() implies texts[j][i] != ' ' by {
                if i < dec(v).len() {
                    assert(texts[j][i] == dec(v)[i]);
                } else {
                    assert(texts[j][i] == short_name(k)[i - dec(v).len()]);
                }
            }
        }
        lemma_join_without_spaces(texts);
    }
}

/// At a precision no finer than another, the components shown are the first
/// of those shown at the finer one.
proof fn lemma_shown_prefix(secs: nat, nanos: nat, p: Precision, q: Precision)
    requires
        precision_rank(p) <= precision_rank(q),
    ensures
        shown_components(secs, nanos, p).is_prefix_of(shown_components(secs, nanos, q)),
{
    let a = shown_components(secs, nanos, p);
    let b = shown_components(secs, nanos, q);
    assert(a =~= b.subrange(0, a.len() as int));
}

proof fn lemma_join_prefix(l1: Seq<Seq<char>>, l2: Seq<Seq<char>>, sep: Seq<char>)
    requires
        l1.len() > 0,
    ensures
        join(l1, sep).is_prefix_of(join(l1 + l2, sep)),
    decreases l2.len(),
{
    if l2.len() == 0 {
        assert(l1 + l2 =~= l1);
    } else {
        lemma_join_prefix(l1, l2.drop_last(), sep);
        assert((l1 + l2).drop_last() =~= l1 + l2.drop_last());
        assert((l1 + l2).last() == l2.last());
        let a = join(l1, sep);
        let b = join(l1 + l2.drop_last(), sep);
        let c = b + sep + (l1 + l2).last();
        assert(c.subrange(0, a.len() as int) =~= b.subrange(0, a.len() as int));
    }
}

proof fn lemma_texts_prefix(cp: Seq<(UnitKind, nat)>, cq: Seq<(UnitKind, nat)>, style: FormatStyle)
    requires
        cp.len() > 0,
        cp.is_prefix_of(cq),
    ensures
        join(component_texts(cp, style), separator(style)).is_prefix_of(
            join(component_texts(cq, style), separator(style)),
        ),
{
    let tail = cq.subrange(cp.len() as int, cq.len() as int);
    assert(cq =~= cp + tail);
    assert(component_texts(cq, style) =~= component_texts(cp, style) + component_texts(
        tail,
        style,
    ));
    lemma_join_prefix(component_texts(cp, style), component_texts(tail, style), separator(style));
}

/// A finer precision only adds components after those of a coarser one: in
/// every style but the clock, a text that shows anything at one precision
/// begins the text at any finer precision.
pub proof fn law_finer_precision_extends(d: Duration, style: FormatStyle, p: Precision, q: Precision)
    requires
        style != FormatStyle::Clock,
        precision_rank(p) <= precision_rank(q),
        duration_text(d, style, p) != zero_text(style),
    ensures
        duration_text(d, style, p).is_prefix_of(duration_text(d, style, q)),
{
    let secs = secs_of(d) as nat;
    let nanos = subsec_nanos_of(d) as nat;
    lemma_shown_prefix(secs, nanos, p, q);
    lemma_texts_prefix(shown_components(secs, nanos, p), shown_components(secs, nanos, q), style);
}

proof fn lemma_plural_is_singular_with_s(k: UnitKind)
    ensures
        plural_name(k) == singular_name(k) + seq!['s'],
{
    match k {
        UnitKind::Nanos => {
            reveal_strlit("nanosecond");
            reveal_strlit("nanoseconds");
        },
        UnitKind::Micros => {
            reveal_strlit("microsecond");
            reveal_strlit("microseconds");
        },
        UnitKind::Millis => {
            reveal_strlit("millisecond");
            reveal_strlit("milliseconds");
        },
        UnitKind::Secs => {
            reveal_strlit("second");
            reveal_strlit("seconds");
        },
        UnitKind::Mins => {
            reveal_strlit("minute");
            reveal_strlit("minutes");
        },
        UnitKind::Hours => {
            reveal_strlit("hour");
            reveal_strlit("hours");
        },
        UnitKind::Days => {
            reveal_strlit("day");
            reveal_strlit("days");
        },
    }
    assert(plural_name(k) =~= singular_name(k) + seq!['s']);
}

/// In the long style a component is its number, a space and the unit's
/// singular name, with an `s` added exactly when the number is not 1; and
/// every plural name is the singular name followed by `s`, so the two differ.
pub proof fn law_long_component_words(k: UnitKind, v: nat)
    ensures
        plural_name(k) == singular_name(k) + seq!['s'],
        unit_text(k, v, FormatStyle::Long) == dec(v) + seq![' '] + singular_name(k) + (if v
            == 1 {
            Seq::<char>::empty()
        } else {
            seq!['s']
        }),
{
    lemma_plural_is_singular_with_s(k);
    if v == 1 {
        assert(singular_name(k) + Seq::<char>::empty() =~= singular_name(k));
    } else {
        assert(dec(v) + seq![' '] + (singular_name(k) + seq!['s']) =~= dec(v) + seq![' ']
            + singular_name(k) + seq!['s']);
    }
}

/// The long text of a duration of whole seconds below a minute is the count,
/// then `second`, with `s` added unless the count is 1 (so 21 seconds read
/// "21 seconds").
pub proof fn law_long_seconds_text(d: Duration)
    requires
        0 < secs_of(d) < 60,
    ensures
        duration_text(d, FormatStyle::Long, Precision::Seconds) == dec(secs_of(d) as nat)
            + " second"@ + (if secs_of(d) == 1 {
            Seq::<char>::empty()
        } else {
            seq!['s']
        }),
{
    let n = secs_of(d) as nat;
    let cs = shown_components(n, subsec_nanos_of(d) as nat, Precision::Seconds);
    assert(cs =~= seq![(UnitKind::Secs, n)]);
    assert(component_texts(cs, FormatStyle::Long) =~= seq![unit_text(UnitKind::Secs, n, FormatStyle::Long)]);
    law_long_component_words(UnitKind::Secs, n);
    reveal_strlit(" second");
    reveal_strlit("second");
    assert(dec(n) + seq![' '] + "second"@ =~= dec(n) + " second"@);
}

/// How many times `c` occurs in `s`.
pub open spec fn occurrences(s: Seq<char>, c: char) -> nat
    decreases s.len(),
{
    if s.len() == 0 {
        0
    } else {
        occurrences(s.drop_last(), c) + if s.last() == c {
            1nat
        } else {
            0nat
        }
    }
}

proof fn lemma_occurrences_add(a: Seq<char>, b: Seq<char>, c: char)
    ensures
        occurrences(a + b, c) == occurrences(a, c) + occurrences(b, c),
    decreases b.len(),
{
    if b.len() == 0 {
        assert(a + b =~= a);
    } else {
        assert((a + b).drop_last() =~= a + b.drop_last());
        assert((a + b).last() == b.last());
        lemma_occurrences_add(a, b.drop_last(), c);
    }
}

proof fn lemma_digits_no_colon(s: Seq<char>)
    requires
        all_digits(s),
    ensures
        occurrences(s, ':') == 0,
    decreases s.len(),
{
    if s.len() > 0 {
        assert(s.drop_last().len() < s.len());
        assert(all_digits(s.drop_last())) by {
            assert forall|i: int| 0 <= i < s.drop_last().len() implies crate::text::ascii_digit(
                #[trigger] s.drop_last()[i],
            ) by {
                assert(s.drop_last()[i] == s[i]);
            }
        }
        lemma_digits_no_colon(s.drop_last());
        assert(crate::text::ascii_digit(s[s.len() - 1]));
    }
}

/// The clock text below one hour is `MM:SS`, five characters with one colon;
/// from one hour on it is `HH:MM:SS`, with two colons.
pub proof fn law_clock_fields(d: Duration, p: Precision)
    ensures
        occurrences(duration_text(d, FormatStyle::Clock, p), ':') == if secs_of(d) < 3600 {
            1nat
        } else {
            2nat
        },
        secs_of(d) < 3600 ==> duration_text(d, FormatStyle::Clock, p).len() == 5,
{
    let secs = secs_of(d) as nat;
    let h = secs / 3600;
    let m = (secs % 3600) / 60;
    let sec = secs % 60;
    lemma_pad2(h);
    lemma_pad2(m);
    lemma_pad2(sec);
    lemma_digits_no_colon(pad2(h));
    lemma_digits_no_colon(pad2(m));
    lemma_digits_no_colon(pad2(sec));
    let colon = seq![':'];
    assert(occurrences(colon, ':') == 1) by {
        assert(colon.drop_last() =~= Seq::<char>::empty());
        assert(occurrences(Seq::<char>::empty(), ':') == 0);
        assert(colon.len() == 1 && colon.last() == ':');
    }
    lemma_occurrences_add(pad2(m), colon, ':');
    lemma_occurrences_add(pad2(m) + colon, pad2(sec), ':');
    if h > 0 {
        lemma_occurrences_add(pad2(h), colon, ':');
        lemma_occurrences_add(pad2(h) + colon, pad2(m), ':');
        lemma_occurrences_add(pad2(h) + colon + pad2(m), colon, ':');
        lemma_occurrences_add(pad2(h) + colon + pad2(m) + colon, pad2(sec), ':');
        assert(secs >= 3600);
    } else {
        assert(secs < 3600);
        lemma_pad2_width(m);
        lemma_pad2_width(sec);
    }
}

proof fn lemma_pad2_width(n: nat)
    requires
        n < 100,
    ensures
        pad2(n).len() == 2,
{
    if n >= 10 {
        assert(dec(n / 10).len() == 1);
    }
}

} // verus!
