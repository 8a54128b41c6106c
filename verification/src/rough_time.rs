//! English phrases for a rough distance in time.

use vstd::prelude::*;

verus! {

/// A unit in which a rough time is counted.
#[derive(Copy, Clone, Debug, PartialEq, Eq, Structural)]
pub enum TimeUnit {
    Seconds,
    Minutes,
    Hours,
    Days,
    Months,
    Years,
}

/// A time that is known only roughly: so many units ago, now, or so many
/// units from now.
#[derive(Copy, Clone, Debug, PartialEq, Eq, Structural)]
pub enum RoughTime {
    InThePast(TimeUnit, u32),
    JustNow,
    InTheFuture(TimeUnit, u32),
}

/// `s` without the run of `c` at its end.
pub open spec fn without_trailing(s: Seq<char>, c: char) -> Seq<char>
    decreases s.len(),
{
    if s.len() > 0 && s.last() == c {
        without_trailing(s.drop_last(), c)
    } else {
        s
    }
}

/// The character that stands for the digit `d`.
pub open spec fn digit(d: nat) -> char
    recommends
        d < 10,
{
    seq!['0', '1', '2', '3', '4', '5', '6', '7', '8', '9'][d as int]
}

/// `n` in decimal notation, most significant digit first, without leading
/// zeros.
pub open spec fn decimal(n: nat) -> Seq<char>
    decreases n,
{
    if n < 10 {
        seq![digit(n)]
    } else {
        decimal(n / 10).push(digit(n % 10))
    }
}

/// The number that a sequence of decimal digits stands for.
pub open spec fn number_of(digits: Seq<char>) -> nat
    decreases digits.len(),
{
    if digits.len() == 0 {
        0
    } else {
        number_of(digits.drop_last()) * 10 + (digits.last() as nat - '0' as nat) as nat
    }
}

/// [`decimal`] writes a number so that it reads back as itself, with at
/// least one digit, and with `0` in front for zero alone.
pub proof fn lemma_decimal_reads_back(n: nat)
    ensures
        number_of(decimal(n)) == n,
        decimal(n).len() >= 1,
        decimal(n)[0] == '0' <==> n == 0,
    decreases n,
{
    if n < 10 {
        assert(number_of(decimal(n).drop_last()) == 0);
    } else {
        lemma_decimal_reads_back(n / 10);
        assert(decimal(n).drop_last() =~= decimal(n / 10));
    }
}

impl TimeUnit {
    /// The unit's name for a count other than one.
    pub open spec fn plural_name(self) -> Seq<char> {
        match self {
            TimeUnit::Seconds => "seconds"@,
            TimeUnit::Minutes => "minutes"@,
            TimeUnit::Hours => "hours"@,
            TimeUnit::Days => "days"@,
            TimeUnit::Months => "months"@,
            TimeUnit::Years => "years"@,
        }
    }

    /// The unit's name for a count of one.
    pub open spec fn singular_name(self) -> Seq<char> {
        match self {
            TimeUnit::Seconds => "second"@,
            TimeUnit::Minutes => "minute"@,
            TimeUnit::Hours => "hour"@,
            TimeUnit::Days => "day"@,
            TimeUnit::Months => "month"@,
            TimeUnit::Years => "year"@,
        }
    }

    /// The unit's name for a count other than one.
    pub fn plural(self) -> (name: &'static str)
        ensures
            name@ == self.plural_name(),
    {
        match self {
            TimeUnit::Seconds => "seconds",
            TimeUnit::Minutes => "minutes",
            TimeUnit::Hours => "hours",
            TimeUnit::Days => "days",
            TimeUnit::Months => "months",
            TimeUnit::Years => "years",
        }
    }

    /// The unit's name for a count of one: the plural without the `s` at its
    /// end.
    pub fn singlar(self) -> (name: &'static str)
        ensures
            name@ == self.singular_name(),
            name@ == without_trailing(self.plural_name(), 's'),
            name@.push('s') == self.plural_name(),
    {
        proof {
            lemma_singular_name(self);
        }
        trim_end_matches_char(self.plural(), 's')
    }
}

/// The singular of a unit's name is its plural without the `s` at the end.
pub proof fn lemma_singular_name(unit: TimeUnit)
    ensures
        unit.singular_name() == without_trailing(unit.plural_name(), 's'),
        unit.singular_name().push('s') == unit.plural_name(),
{
    reveal_strlit("seconds");
    reveal_strlit("minutes");
    reveal_strlit("hours");
    reveal_strlit("days");
    reveal_strlit("months");
    reveal_strlit("years");
    reveal_strlit("second");
    reveal_strlit("minute");
    reveal_strlit("hour");
    reveal_strlit("day");
    reveal_strlit("month");
    reveal_strlit("year");
    reveal_with_fuel(without_trailing, 2);
    assert(unit.plural_name().drop_last() =~= unit.singular_name());
}

/// `str::trim_end_matches` with a `char` for the pattern. The contract claims
/// what std documents: the result is `s` with every `c` at its end removed,
/// one after another, until the last character is another one or none is
/// left.
#[verifier::external_body]
fn trim_end_matches_char<'a>(s: &'a str, c: char) -> (trimmed: &'a str)
    ensures
        trimmed@ == without_trailing(s@, c),
{
    s.trim_end_matches(c)
}

/// `format!("{}", n)` for a `u32`. The contract claims what std's `Display`
/// for the unsigned integers does: decimal digits, most significant first,
/// no sign, no leading zeros, `"0"` for zero.
#[verifier::external_body]
fn decimal_string(n: u32) -> (text: String)
    ensures
        text@ == decimal(n as nat),
{
    format!("{}", n)
}

/// The English phrase for `rt`.
pub open spec fn english(rt: RoughTime) -> Seq<char> {
    match rt {
        RoughTime::InThePast(units, count) => decimal(count as nat) + " "@ + units.plural_name()
            + " ago"@,
        RoughTime::JustNow => "Just now"@,
        RoughTime::InTheFuture(units, count) => if count == 1 {
            "a "@ + units.singular_name() + " from now"@
        } else {
            decimal(count as nat) + " "@ + units.plural_name() + " from now"@
        },
    }
}

/// Says `rt` in English: `"87 years ago"`, `"Just now"`, `"a day from now"`,
/// `"3 hours from now"`.
pub fn rough_time_to_english(rt: RoughTime) -> (text: String)
    ensures
        text@ == english(rt),
{
    match rt {
        RoughTime::InThePast(units, count) => {
            let mut text = decimal_string(count);
            text.append(" ");
            text.append(units.plural());
            text.append(" ago");
            text
        },
        RoughTime::JustNow => String::from_str("Just now"),
        RoughTime::InTheFuture(units, count) => {
            if count == 1 {
                let mut text = String::from_str("a ");
                text.append(units.singlar());
                text.append(" from now");
                text
            } else {
                let mut text = decimal_string(count);
                text.append(" ");
                text.append(units.plural());
                text.append(" from now");
                text
            }
        },
    }
}

} // verus!
