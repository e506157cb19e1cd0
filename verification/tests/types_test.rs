use rustygene::types::{ActorRef, Calendar, DateValue, EntityId, FuzzyDate};

#[test]
fn test_date_value_ordering() {
    let d1 = DateValue::Exact {
        date: FuzzyDate::new(1850, Some(5), Some(1)),
        calendar: Calendar::Gregorian,
    };
    let d2 = DateValue::Exact {
        date: FuzzyDate::new(1850, Some(10), Some(1)),
        calendar: Calendar::Gregorian,
    };
    assert!(d1 < d2);

    let d_fuzzy = DateValue::About {
        date: FuzzyDate::new(1850, None, None),
        calendar: Calendar::Gregorian,
    };
    // 1850-01-01 < 1850-05-01
    assert!(d_fuzzy < d1);

    let d3 = DateValue::Textual {
        value: "some weird string".to_string(),
    };
    assert_eq!(d1.partial_cmp(&d3), None);
}

#[test]
fn day_numbers_match_chrono_reference_points() {
    let day = |y: i32, m: u8, d: u8| FuzzyDate::new(y, Some(m), Some(d)).to_sortable_date(true);
    assert_eq!(day(1970, 1, 1), 719_163);
    assert_eq!(day(2, 1, 1), 366);
    assert_eq!(day(1, 1, 1), 1);
    assert_eq!(day(0, 1, 1), -365);
    assert_eq!(day(2015, 2, 29), day(2015, 1, 1));
    assert_eq!(day(-4, 2, 29), day(-4, 1, 1) + 59);
}

#[test]
fn sortable_date_fills_missing_parts() {
    let day = |y: i32, m: u8, d: u8| FuzzyDate::new(y, Some(m), Some(d)).to_sortable_date(true);
    let d = FuzzyDate::new(1900, Some(2), None);
    assert_eq!(d.to_sortable_date(true), day(1900, 2, 1));
    assert_eq!(d.to_sortable_date(false), day(1900, 2, 28));
    let leap = FuzzyDate::new(2000, Some(2), None);
    assert_eq!(leap.to_sortable_date(false), day(2000, 2, 29));
    let year_only = FuzzyDate::new(1850, None, None);
    assert_eq!(year_only.to_sortable_date(false), day(1850, 12, 31));
    let bad = FuzzyDate::new(1850, Some(13), Some(40));
    assert_eq!(bad.to_sortable_date(true), day(1850, 1, 1));
}

#[test]
fn range_center_is_midpoint_and_quarter_center_is_mid_month() {
    let range = DateValue::Range {
        from: FuzzyDate::new(1900, Some(1), Some(1)),
        to: FuzzyDate::new(1900, Some(1), Some(11)),
        calendar: Calendar::Gregorian,
    };
    assert_eq!(range.center_day(), Some(FuzzyDate::new(1900, Some(1), Some(6)).to_sortable_date(true) as i64));
    let quarter = DateValue::Quarter { year: 1900, quarter: 2 };
    assert_eq!(quarter.center_day(), Some(FuzzyDate::new(1900, Some(5), Some(15)).to_sortable_date(true) as i64));
}

#[test]
fn entity_id_text_forms() {
    let id = EntityId(0x0123_4567_89ab_cdef_0123_4567_89ab_cdef);
    assert_eq!(id.to_text(), "01234567-89ab-cdef-0123-456789abcdef");
    assert_eq!(id.to_simple_text(), "0123456789abcdef0123456789abcdef");
    assert_ne!(EntityId::new(), EntityId::new());
}

#[test]
fn new_entity_ids_are_version_4_uuids() {
    for _ in 0..8 {
        let id = EntityId::new();
        assert_eq!((id.0 >> 76) & 0xf, 4);
        assert_eq!((id.0 >> 62) & 0x3, 2);
        let text = id.to_text();
        assert_eq!(text.chars().nth(14), Some('4'));
        assert!(matches!(text.chars().nth(19), Some('8' | '9' | 'a' | 'b')));
    }
}

#[test]
fn actor_ref_text_form_reads_back() {
    let actor = ActorRef::Agent("doc-processor".to_string());
    assert_eq!(actor.to_text(), "agent:doc-processor");
    assert_eq!(ActorRef::parse(&actor.to_text()), Ok(actor));
    let with_colon = ActorRef::Import("job:7".to_string());
    assert_eq!(with_colon.to_text(), "import:job:7");
    assert_eq!(ActorRef::parse("import:job:7"), Ok(with_colon));
    assert!(ActorRef::parse("robot:x").is_err());
    assert!(ActorRef::parse("user").is_err());
}
