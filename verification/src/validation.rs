//! Plausibility rules on dates: possible dates, birth before death, parent
//! age gap, no self-parentage, events within a lifespan.
use crate::calendar::{
    civil_date_valid, day_number_of, days_from_ce, last_day_of_month, last_day_rule,
    max_day_number, min_day_number,
};
use crate::text::str_to_string;
use crate::types::{sortable_day, year_in_range, year_supported, DateValue, EntityId, FuzzyDate};
use vstd::prelude::*;

verus! {

pub const DEFAULT_MIN_PARENT_AGE_GAP_YEARS: i64 = 12;

#[derive(Debug, Clone, PartialEq, Eq)]
pub enum ValidationError {
    ImpossibleDate { field: &'static str, message: String },
    BirthAfterDeath,
    ParentTooYoung { min_years: i64 },
    SelfParentage,
    EventOutsideLifespan,
}

/// Earliest and latest possible day numbers of a date value; `None` stands
/// for an open end.
#[derive(Debug, Clone, Copy)]
struct DateBounds {
    lower: Option<i64>,
    upper: Option<i64>,
}

/// Whether the years of the fuzzy dates inside a date value lie in the
/// calendar range (quarters are checked separately).
pub open spec fn fuzzy_years_supported(dv: DateValue) -> bool {
    match dv {
        DateValue::Exact { date, .. } => year_supported(date.year as int),
        DateValue::Before { date, .. } => year_supported(date.year as int),
        DateValue::After { date, .. } => year_supported(date.year as int),
        DateValue::About { date, .. } => year_supported(date.year as int),
        DateValue::Tolerance { date, .. } => year_supported(date.year as int),
        DateValue::Range { from, to, .. } => year_supported(from.year as int) && year_supported(
            to.year as int,
        ),
        DateValue::Quarter { .. } => true,
        DateValue::Textual { .. } => true,
    }
}

/// Whether the bounds of a date value can be computed: its years lie in
/// range and a tolerance window stays inside the calendar range.
pub open spec fn bounds_computable(dv: DateValue) -> bool {
    &&& fuzzy_years_supported(dv)
    &&& match dv {
        DateValue::Tolerance { date, plus_minus_days, .. } => {
            &&& min_day_number() <= sortable_day(date, true) - plus_minus_days
            &&& sortable_day(date, true) + plus_minus_days <= max_day_number()
        },
        _ => true,
    }
}

/// Earliest and latest day of a quarter `q` of `year`, when it is a real quarter
/// of a year in range.
pub open spec fn quarter_bounds(year: int, q: int) -> Option<(Option<int>, Option<int>)> {
    let sm = (q - 1) * 3 + 1;
    let em = sm + 2;
    if !(1 <= q <= 4) {
        None
    } else if !civil_date_valid(year, sm, 1) || !civil_date_valid(year, em, last_day_rule(year, em)) {
        None
    } else {
        Some((Some(days_from_ce(year, sm, 1)), Some(days_from_ce(year, em, last_day_rule(year, em)))))
    }
}

/// Earliest and latest possible day numbers of a date value (`None` ends are
/// open); `None` overall where a quarter is not a real quarter in range.
pub open spec fn date_bounds(dv: DateValue) -> Option<(Option<int>, Option<int>)> {
    match dv {
        DateValue::Exact { date, .. } => Some(
            (Some(sortable_day(date, true)), Some(sortable_day(date, false))),
        ),
        DateValue::About { date, .. } => Some(
            (Some(sortable_day(date, true)), Some(sortable_day(date, false))),
        ),
        DateValue::Range { from, to, .. } => Some(
            (Some(sortable_day(from, true)), Some(sortable_day(to, false))),
        ),
        DateValue::Before { date, .. } => Some((None, Some(sortable_day(date, false)))),
        DateValue::After { date, .. } => Some((Some(sortable_day(date, true)), None)),
        DateValue::Tolerance { date, plus_minus_days, .. } => Some(
            (
                Some(sortable_day(date, true) - plus_minus_days),
                Some(sortable_day(date, true) + plus_minus_days),
            ),
        ),
        DateValue::Quarter { year, quarter } => quarter_bounds(year as int, quarter as int),
        DateValue::Textual { .. } => Some((None, None)),
    }
}

/// Why a date value is impossible, as `(field, message)`; `None` when it is possible.
/// A range is impossible when its start lies after its end; a quarter when it
/// is not in `1..=4`.
pub open spec fn date_impossibility(dv: DateValue) -> Option<(Seq<char>, Seq<char>)> {
    match dv {
        DateValue::Range { from, to, .. } => if sortable_day(from, true) > sortable_day(to, false) {
            Some(("range"@, "range start is after range end"@))
        } else {
            None
        },
        DateValue::Quarter { quarter, .. } => if !(1 <= quarter <= 4) {
            Some(("quarter"@, "quarter must be 1..=4"@))
        } else {
            None
        },
        _ => None,
    }
}

/// `e` is an impossible-date error naming `field` with `message`.
pub open spec fn is_impossible(e: ValidationError, field: Seq<char>, message: Seq<char>) -> bool {
    e matches ValidationError::ImpossibleDate { field: f, message: m } && f@ == field && m@
        == message
}

/// `r` is what checking that `dv` is possible gives.
pub open spec fn possible_result(dv: DateValue, r: Result<(), ValidationError>) -> bool {
    match date_impossibility(dv) {
        None => r is Ok,
        Some(fm) => r matches Err(e) && is_impossible(e, fm.0, fm.1),
    }
}

/// The message given when a date has no bounds.
pub open spec fn no_bounds_message() -> Seq<char> {
    "could not derive sortable bounds"@
}

/// The earliest-day end of computed bounds.
pub open spec fn lower_of(b: Option<(Option<int>, Option<int>)>) -> Option<int> {
    match b {
        Some(p) => p.0,
        None => None,
    }
}

/// The latest-day end of computed bounds.
pub open spec fn upper_of(b: Option<(Option<int>, Option<int>)>) -> Option<int> {
    match b {
        Some(p) => p.1,
        None => None,
    }
}

/// Whether `a` lies strictly after `b`, both ends being present.
pub open spec fn present_and_after(a: Option<int>, b: Option<int>) -> bool {
    a is Some && b is Some && a->0 > b->0
}

fn impossible(field: &'static str, message: &str) -> (r: ValidationError)
    ensures
        is_impossible(r, field@, message@),
{
    ValidationError::ImpossibleDate { field, message: str_to_string(message) }
}

fn fuzzy_bounds(date: FuzzyDate) -> (r: (i64, i64))
    requires
        year_supported(date.year as int),
    ensures
        r.0 as int == sortable_day(date, true),
        r.1 as int == sortable_day(date, false),
{
    (date.to_sortable_date(true) as i64, date.to_sortable_date(false) as i64)
}

fn bounds(date: &DateValue) -> (r: Option<DateBounds>)
    requires
        bounds_computable(*date),
    ensures
        match r {
            Some(b) => date_bounds(*date) == Some(
                (
                    match b.lower {
                        Some(x) => Some(x as int),
                        None => None,
                    },
                    match b.upper {
                        Some(x) => Some(x as int),
                        None => None,
                    },
                ),
            ),
            None => date_bounds(*date) is None,
        },
{
    match date {
        DateValue::Exact { date, .. } => {
            let (start, end) = fuzzy_bounds(*date);
            Some(DateBounds { lower: Some(start), upper: Some(end) })
        },
        DateValue::Range { from, to, .. } => {
            let (start, _) = fuzzy_bounds(*from);
            let (_, end) = fuzzy_bounds(*to);
            Some(DateBounds { lower: Some(start), upper: Some(end) })
        },
        DateValue::Before { date, .. } => {
            let (_, end) = fuzzy_bounds(*date);
            Some(DateBounds { lower: None, upper: Some(end) })
        },
        DateValue::After { date, .. } => {
            let (start, _) = fuzzy_bounds(*date);
            Some(DateBounds { lower: Some(start), upper: None })
        },
        DateValue::About { date, .. } => {
            let (start, end) = fuzzy_bounds(*date);
            Some(DateBounds { lower: Some(start), upper: Some(end) })
        },
        DateValue::Tolerance { date, plus_minus_days, .. } => {
            let center = date.to_sortable_date(true) as i64;
            let delta = *plus_minus_days as i64;
            Some(DateBounds { lower: Some(center - delta), upper: Some(center + delta) })
        },
        DateValue::Quarter { year, quarter } => {
            if *quarter < 1 || *quarter > 4 {
                return None;
            }
            let start_month: u32 = ((*quarter as u32) - 1) * 3 + 1;
            let end_month: u32 = start_month + 2;
            let start = match day_number_of(*year, start_month, 1) {
                Some(n) => n,
                None => return None,
            };
            let end_day = last_day_of_month(*year, end_month);
            let end = match day_number_of(*year, end_month, end_day) {
                Some(n) => n,
                None => return None,
            };
            Some(DateBounds { lower: Some(start as i64), upper: Some(end as i64) })
        },
        DateValue::Textual { .. } => Some(DateBounds { lower: None, upper: None }),
    }
}

/// Checks that a date value can exist: a range must not start after it ends,
/// and a quarter must be in `1..=4`.
pub fn validate_date_possible(date: &DateValue) -> (r: Result<(), ValidationError>)
    requires
        fuzzy_years_supported(*date),
    ensures
        possible_result(*date, r),
{
    match date {
        DateValue::Range { from, to, .. } => {
            let (from_lower, _) = fuzzy_bounds(*from);
            let (_, to_upper) = fuzzy_bounds(*to);
            if from_lower > to_upper {
                return Err(impossible("range", "range start is after range end"));
            }
        },
        DateValue::Quarter { quarter, .. } => {
            if *quarter < 1 || *quarter > 4 {
                return Err(impossible("quarter", "quarter must be 1..=4"));
            }
        },
        _ => {},
    }
    Ok(())
}

/// Bounds of a date that passed the possibility check, or the error naming
/// `field` when it has none.
fn bounds_or_error(date: &DateValue, field: &'static str) -> (r: Result<DateBounds, ValidationError>)
    requires
        bounds_computable(*date),
    ensures
        match r {
            Ok(b) => date_bounds(*date) == Some(
                (
                    match b.lower {
                        Some(x) => Some(x as int),
                        None => None,
                    },
                    match b.upper {
                        Some(x) => Some(x as int),
                        None => None,
                    },
                ),
            ),
            Err(e) => date_bounds(*date) is None && is_impossible(e, field@, no_bounds_message()),
        },
{
    match bounds(date) {
        Some(b) => Ok(b),
        None => Err(impossible(field, "could not derive sortable bounds")),
    }
}

/// What checking one date inside a larger rule gives: its possibility, then
/// its bounds (`field` names it in the error).
pub open spec fn checked_bounds_result(
    dv: DateValue,
    field: Seq<char>,
    r: Result<(), ValidationError>,
) -> bool {
    if date_impossibility(dv) is Some {
        possible_result(dv, r)
    } else {
        &&& date_bounds(dv) is None
        &&& r matches Err(e) && is_impossible(e, field, no_bounds_message())
    }
}

/// Whether a date passes the possibility check and has bounds.
pub open spec fn usable(dv: DateValue) -> bool {
    date_impossibility(dv) is None && date_bounds(dv) is Some
}

/// The outcome of `validate_birth_before_death`: each date must be possible,
/// then have bounds; the birth's latest day must not lie after the death's
/// earliest day.
pub open spec fn birth_before_death_result(
    birth: DateValue,
    death: DateValue,
    r: Result<(), ValidationError>,
) -> bool {
    if date_impossibility(birth) is Some {
        possible_result(birth, r)
    } else if date_impossibility(death) is Some {
        possible_result(death, r)
    } else if date_bounds(birth) is None {
        checked_bounds_result(birth, "birth_date"@, r)
    } else if date_bounds(death) is None {
        checked_bounds_result(death, "death_date"@, r)
    } else if present_and_after(upper_of(date_bounds(birth)), lower_of(date_bounds(death))) {
        r matches Err(ValidationError::BirthAfterDeath)
    } else {
        r is Ok
    }
}

pub fn validate_birth_before_death(birth_date: &DateValue, death_date: &DateValue) -> (r: Result<
    (),
    ValidationError,
>)
    requires
        fuzzy_years_supported(*birth_date),
        date_impossibility(*birth_date) is None ==> fuzzy_years_supported(*death_date),
        date_impossibility(*birth_date) is None && date_impossibility(*death_date) is None
            ==> bounds_computable(*birth_date),
        usable(*birth_date) && date_impossibility(*death_date) is None ==> bounds_computable(
            *death_date,
        ),
    ensures
        birth_before_death_result(*birth_date, *death_date, r),
{
    validate_date_possible(birth_date)?;
    validate_date_possible(death_date)?;
    let birth = bounds_or_error(birth_date, "birth_date")?;
    let death = bounds_or_error(death_date, "death_date")?;
    match (birth.upper, death.lower) {
        (Some(birth_latest), Some(death_earliest)) => {
            if birth_latest > death_earliest {
                return Err(ValidationError::BirthAfterDeath);
            }
        },
        _ => {},
    }
    Ok(())
}

/// The outcome of `validate_parent_age_gap`: each date must be possible, then
/// have bounds; the child's earliest day must not come before the parent's
/// latest day plus `min_years` times 365 days.
pub open spec fn parent_age_gap_result(
    parent: DateValue,
    child: DateValue,
    min_years: int,
    r: Result<(), ValidationError>,
) -> bool {
    if date_impossibility(parent) is Some {
        possible_result(parent, r)
    } else if date_impossibility(child) is Some {
        possible_result(child, r)
    } else if date_bounds(parent) is None {
        checked_bounds_result(parent, "parent_birth_date"@, r)
    } else if date_bounds(child) is None {
        checked_bounds_result(child, "child_birth_date"@, r)
    } else if upper_of(date_bounds(parent)) is Some && lower_of(date_bounds(child)) is Some
        && lower_of(date_bounds(child))->0 < upper_of(date_bounds(parent))->0 + 365 * min_years {
        r matches Err(ValidationError::ParentTooYoung { min_years: m }) && m == min_years
    } else {
        r is Ok
    }
}

pub fn validate_parent_age_gap(
    parent_birth_date: &DateValue,
    child_birth_date: &DateValue,
    min_parent_age_gap_years: i64,
) -> (r: Result<(), ValidationError>)
    requires
        fuzzy_years_supported(*parent_birth_date),
        date_impossibility(*parent_birth_date) is None ==> fuzzy_years_supported(
            *child_birth_date,
        ),
        date_impossibility(*parent_birth_date) is None && date_impossibility(*child_birth_date)
            is None ==> bounds_computable(*parent_birth_date),
        usable(*parent_birth_date) && date_impossibility(*child_birth_date) is None
            ==> bounds_computable(*child_birth_date),
        usable(*parent_birth_date) && usable(*child_birth_date) && upper_of(
            date_bounds(*parent_birth_date),
        ) is Some && lower_of(date_bounds(*child_birth_date)) is Some ==> min_day_number()
            <= upper_of(date_bounds(*parent_birth_date))->0 + 365 * min_parent_age_gap_years
            <= max_day_number(),
    ensures
        parent_age_gap_result(
            *parent_birth_date,
            *child_birth_date,
            min_parent_age_gap_years as int,
            r,
        ),
{
    validate_date_possible(parent_birth_date)?;
    validate_date_possible(child_birth_date)?;
    let parent = bounds_or_error(parent_birth_date, "parent_birth_date")?;
    let child = bounds_or_error(child_birth_date, "child_birth_date")?;
    match (parent.upper, child.lower) {
        (Some(parent_latest), Some(child_earliest)) => {
            let min_gap = (min_parent_age_gap_years as i128) * 365;
            if (child_earliest as i128) < (parent_latest as i128) + min_gap {
                return Err(ValidationError::ParentTooYoung { min_years: min_parent_age_gap_years });
            }
        },
        _ => {},
    }
    Ok(())
}

pub fn validate_no_self_parentage(parent_id: EntityId, child_id: EntityId) -> (r: Result<
    (),
    ValidationError,
>)
    ensures
        r is Ok <==> parent_id != child_id,
        r is Err ==> r matches Err(ValidationError::SelfParentage),
{
    if parent_id.0 == child_id.0 {
        return Err(ValidationError::SelfParentage);
    }
    Ok(())
}

/// The outcome of `validate_event_within_lifespan`: the event must be
/// possible and have bounds; then, for a given birth (possible, with bounds),
/// the event's latest day must not precede the birth's earliest day; then,
/// for a given death, the event's earliest day must not follow the death's
/// latest day.
pub open spec fn event_within_lifespan_result(
    event: DateValue,
    birth: Option<DateValue>,
    death: Option<DateValue>,
    r: Result<(), ValidationError>,
) -> bool {
    if date_impossibility(event) is Some {
        possible_result(event, r)
    } else if date_bounds(event) is None {
        checked_bounds_result(event, "event_date"@, r)
    } else if birth is Some && date_impossibility(birth->0) is Some {
        possible_result(birth->0, r)
    } else if birth is Some && date_bounds(birth->0) is None {
        checked_bounds_result(birth->0, "birth_date"@, r)
    } else if birth is Some && present_and_after(
        lower_of(date_bounds(birth->0)),
        upper_of(date_bounds(event)),
    ) {
        r matches Err(ValidationError::EventOutsideLifespan)
    } else if death is Some && date_impossibility(death->0) is Some {
        possible_result(death->0, r)
    } else if death is Some && date_bounds(death->0) is None {
        checked_bounds_result(death->0, "death_date"@, r)
    } else if death is Some && present_and_after(
        lower_of(date_bounds(event)),
        upper_of(date_bounds(death->0)),
    ) {
        r matches Err(ValidationError::EventOutsideLifespan)
    } else {
        r is Ok
    }
}

/// Whether `validate_event_within_lifespan` gets past the birth check.
pub open spec fn passes_birth_check(event: DateValue, birth: Option<DateValue>) -> bool {
    usable(event) && match birth {
        None => true,
        Some(b) => usable(b) && !present_and_after(
            lower_of(date_bounds(b)),
            upper_of(date_bounds(event)),
        ),
    }
}

pub fn validate_event_within_lifespan(
    event_date: &DateValue,
    birth_date: Option<&DateValue>,
    death_date: Option<&DateValue>,
) -> (r: Result<(), ValidationError>)
    requires
        fuzzy_years_supported(*event_date),
        date_impossibility(*event_date) is None ==> bounds_computable(*event_date),
        usable(*event_date) && birth_date is Some ==> fuzzy_years_supported(*birth_date->0),
        usable(*event_date) && birth_date is Some && date_impossibility(*birth_date->0) is None
            ==> bounds_computable(*birth_date->0),
        passes_birth_check(
            *event_date,
            match birth_date {
                Some(b) => Some(*b),
                None => None,
            },
        ) && death_date is Some ==> fuzzy_years_supported(*death_date->0),
        passes_birth_check(
            *event_date,
            match birth_date {
                Some(b) => Some(*b),
                None => None,
            },
        ) && death_date is Some && date_impossibility(*death_date->0) is None
            ==> bounds_computable(*death_date->0),
    ensures
        event_within_lifespan_result(
            *event_date,
            match birth_date {
                Some(b) => Some(*b),
                None => None,
            },
            match death_date {
                Some(d) => Some(*d),
                None => None,
            },
            r,
        ),
{
    validate_date_possible(event_date)?;
    let event_bounds = bounds_or_error(event_date, "event_date")?;

    if let Some(birth) = birth_date {
        validate_date_possible(birth)?;
        let birth_bounds = bounds_or_error(birth, "birth_date")?;
        match (event_bounds.upper, birth_bounds.lower) {
            (Some(event_latest), Some(birth_earliest)) => {
                if event_latest < birth_earliest {
                    return Err(ValidationError::EventOutsideLifespan);
                }
            },
            _ => {},
        }
    }
    if let Some(death) = death_date {
        validate_date_possible(death)?;
        let death_bounds = bounds_or_error(death, "death_date")?;
        match (event_bounds.lower, death_bounds.upper) {
            (Some(event_earliest), Some(death_latest)) => {
                if event_earliest > death_latest {
                    return Err(ValidationError::EventOutsideLifespan);
                }
            },
            _ => {},
        }
    }
    Ok(())
}

} // verus!
