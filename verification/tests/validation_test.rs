use rustygene::types::{Calendar, DateValue, EntityId, FuzzyDate};
use rustygene::validation::{
    validate_birth_before_death, validate_date_possible, validate_event_within_lifespan,
    validate_no_self_parentage, validate_parent_age_gap, ValidationError,
    DEFAULT_MIN_PARENT_AGE_GAP_YEARS,
};

fn exact(year: i32, month: u8, day: u8) -> DateValue {
    DateValue::Exact {
        date: FuzzyDate::new(year, Some(month), Some(day)),
        calendar: Calendar::Gregorian,
    }
}

#[test]
fn validates_birth_before_death() {
    let birth = exact(1850, 5, 1);
    let death = exact(1900, 1, 1);
    assert!(validate_birth_before_death(&birth, &death).is_ok());
}

#[test]
fn rejects_birth_after_death() {
    let birth = exact(1901, 1, 1);
    let death = exact(1900, 1, 1);
    assert_eq!(
        validate_birth_before_death(&birth, &death),
        Err(ValidationError::BirthAfterDeath)
    );
}

#[test]
fn validates_parent_age_gap() {
    let parent = exact(1840, 1, 1);
    let child = exact(1860, 1, 1);
    assert!(validate_parent_age_gap(&parent, &child, DEFAULT_MIN_PARENT_AGE_GAP_YEARS).is_ok());
}

#[test]
fn rejects_parent_too_young() {
    let parent = exact(1855, 1, 1);
    let child = exact(1860, 1, 1);
    assert_eq!(
        validate_parent_age_gap(&parent, &child, DEFAULT_MIN_PARENT_AGE_GAP_YEARS),
        Err(ValidationError::ParentTooYoung {
            min_years: DEFAULT_MIN_PARENT_AGE_GAP_YEARS
        })
    );
}

#[test]
fn validates_no_self_parentage() {
    let parent = EntityId::new();
    let child = EntityId::new();
    assert!(validate_no_self_parentage(parent, child).is_ok());
}

#[test]
fn rejects_self_parentage() {
    let person = EntityId::new();
    assert_eq!(
        validate_no_self_parentage(person, person),
        Err(ValidationError::SelfParentage)
    );
}

#[test]
fn validates_event_within_lifespan() {
    let birth = exact(1850, 1, 1);
    let death = exact(1910, 1, 1);
    let event = exact(1881, 4, 3);

    assert!(validate_event_within_lifespan(&event, Some(&birth), Some(&death)).is_ok());
}

#[test]
fn rejects_event_after_death() {
    let birth = exact(1850, 1, 1);
    let death = exact(1910, 1, 1);
    let event = exact(1920, 1, 1);

    assert_eq!(
        validate_event_within_lifespan(&event, Some(&birth), Some(&death)),
        Err(ValidationError::EventOutsideLifespan)
    );
}

#[test]
fn rejects_event_before_birth() {
    let birth = exact(1850, 1, 1);
    let event = exact(1849, 12, 31);

    assert_eq!(
        validate_event_within_lifespan(&event, Some(&birth), None),
        Err(ValidationError::EventOutsideLifespan)
    );
}

#[test]
fn rejects_invalid_range_date() {
    let invalid = DateValue::Range {
        from: FuzzyDate::new(1900, Some(1), Some(1)),
        to: FuzzyDate::new(1899, Some(12), Some(31)),
        calendar: Calendar::Gregorian,
    };

    assert_eq!(
        validate_date_possible(&invalid),
        Err(ValidationError::ImpossibleDate {
            field: "range",
            message: "range start is after range end".to_string(),
        })
    );
}

#[test]
fn rejects_quarter_out_of_range_and_accepts_textual() {
    let q = DateValue::Quarter { year: 1900, quarter: 5 };
    assert_eq!(
        validate_date_possible(&q),
        Err(ValidationError::ImpossibleDate {
            field: "quarter",
            message: "quarter must be 1..=4".to_string(),
        })
    );
    let t = DateValue::Textual { value: "about spring".to_string() };
    assert!(validate_date_possible(&t).is_ok());
}

#[test]
fn fuzzy_dates_compare_by_their_bounds() {
    // Same year, month-only birth and day death: the birth's latest day (May 31)
    // is after the death's day (May 10).
    let birth = DateValue::About {
        date: FuzzyDate::new(1900, Some(5), None),
        calendar: Calendar::Gregorian,
    };
    let death = exact(1900, 5, 10);
    assert_eq!(
        validate_birth_before_death(&birth, &death),
        Err(ValidationError::BirthAfterDeath)
    );
    // An open-ended "before" birth has no earliest day; it cannot be after anything.
    let before = DateValue::Before {
        date: FuzzyDate::new(1950, None, None),
        calendar: Calendar::Gregorian,
    };
    let after = DateValue::After {
        date: FuzzyDate::new(1800, None, None),
        calendar: Calendar::Gregorian,
    };
    assert_eq!(
        validate_birth_before_death(&before, &after),
        Err(ValidationError::BirthAfterDeath)
    );
    let tol = DateValue::Tolerance {
        date: FuzzyDate::new(1900, Some(1), Some(10)),
        plus_minus_days: 20,
        calendar: Calendar::Gregorian,
    };
    assert!(validate_event_within_lifespan(&exact(1899, 12, 25), Some(&tol), None).is_ok());
    assert_eq!(
        validate_event_within_lifespan(&exact(1899, 12, 20), Some(&tol), None),
        Err(ValidationError::EventOutsideLifespan)
    );
}
