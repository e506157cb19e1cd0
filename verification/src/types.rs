//! Identifiers, fuzzy dates, date values, gender and actors.
use crate::calendar::{civil_date_valid, day_number_of, days_from_ce, last_day_of_month, last_day_rule, MAX_YEAR, MIN_YEAR};
use crate::text::{chars_of, push_str, str_eq, str_to_string, string_of_range};
use vstd::prelude::*;

verus! {

/// Base identifier for all domain entities: the 128 bits of a UUID.
#[derive(Debug, Clone, Copy, PartialEq, Eq, PartialOrd, Ord, Hash, Structural)]
pub struct EntityId(pub u128);

/// Lower-case hexadecimal digit for `n` in `0..16`.
pub open spec fn hex_digit(n: int) -> char {
    seq!['0', '1', '2', '3', '4', '5', '6', '7', '8', '9', 'a', 'b', 'c', 'd', 'e', 'f'][n]
}

/// The last `len` hexadecimal digits of `x`, most significant first.
pub open spec fn hex_lower(x: nat, len: nat) -> Seq<char>
    decreases len,
{
    if len == 0 {
        Seq::empty()
    } else {
        hex_lower(x / 16, (len - 1) as nat).push(hex_digit((x % 16) as int))
    }
}

/// The 32-digit "simple" text form of a UUID.
pub open spec fn uuid_simple_text(id: u128) -> Seq<char> {
    hex_lower(id as nat, 32)
}

/// The hyphenated 8-4-4-4-12 text form of a UUID.
pub open spec fn uuid_hyphenated_text(id: u128) -> Seq<char> {
    let s = uuid_simple_text(id);
    s.subrange(0, 8) + seq!['-'] + s.subrange(8, 12) + seq!['-'] + s.subrange(12, 16) + seq!['-']
        + s.subrange(16, 20) + seq!['-'] + s.subrange(20, 32)
}

/// What `uuid::Uuid::new_v5` returns for a namespace and a name (SHA-1 based).
pub uninterp spec fn uuid_v5(namespace: u128, name: Seq<u8>) -> u128;

/// A version 4 UUID: version bits `0100`, variant bits `10`.
pub open spec fn is_random_uuid(x: u128) -> bool {
    (x >> 76u128) & 0xfu128 == 4u128 && (x >> 62u128) & 0x3u128 == 2u128
}

/// Calls `uuid::Uuid::new_v4`. The result is random; what is claimed is only
/// that its version and variant bits are those of a version 4 UUID (the
/// crate masks random bits and sets these).
#[verifier::external_body]
fn random_uuid() -> (r: u128)
    ensures
        is_random_uuid(r),
{
    uuid::Uuid::new_v4().as_u128()
}

/// Calls `uuid::Uuid::new_v5`; the result is named `uuid_v5` of the
/// namespace and the name's bytes.
#[verifier::external_body]
pub(crate) fn name_based_uuid(namespace: u128, name: &[u8]) -> (r: u128)
    ensures
        r == uuid_v5(namespace, name@),
{
    uuid::Uuid::new_v5(&uuid::Uuid::from_u128(namespace), name).as_u128()
}

/// Calls `uuid::Uuid::simple` and formats it: 32 lower-case hex digits.
#[verifier::external_body]
pub(crate) fn uuid_simple_string(id: u128) -> (r: String)
    ensures
        r@ == uuid_simple_text(id),
{
    uuid::Uuid::from_u128(id).simple().to_string()
}

/// Calls `uuid::Uuid`'s `Display` (its hyphenated form): 8-4-4-4-12 lower-case hex digits.
#[verifier::external_body]
pub(crate) fn uuid_hyphenated_string(id: u128) -> (r: String)
    ensures
        r@ == uuid_hyphenated_text(id),
{
    uuid::Uuid::from_u128(id).hyphenated().to_string()
}

impl EntityId {
    /// A fresh random (version 4) identifier.
    pub fn new() -> (r: Self)
        ensures
            is_random_uuid(r.0),
    {
        EntityId(random_uuid())
    }

    /// The hyphenated text form, as `Display` writes a UUID.
    pub fn to_text(&self) -> (r: String)
        ensures
            r@ == uuid_hyphenated_text(self.0),
    {
        uuid_hyphenated_string(self.0)
    }

    /// The 32-digit simple text form.
    pub fn to_simple_text(&self) -> (r: String)
        ensures
            r@ == uuid_simple_text(self.0),
    {
        uuid_simple_string(self.0)
    }
}

impl Default for EntityId {
    fn default() -> Self {
        Self::new()
    }
}

/// Calendar system for historical accuracy.
#[derive(Debug, Clone, Copy, PartialEq, Eq, Hash, Structural)]
pub enum Calendar {
    Gregorian,
    Julian,
    DualDate,
    Hebrew,
    FrenchRepublican,
    Islamic,
}

impl Default for Calendar {
    fn default() -> (r: Self)
        ensures
            r == Calendar::Gregorian,
    {
        Calendar::Gregorian
    }
}

/// A flexible date structure supporting exact, year-month, or year-only values.
#[derive(Debug, Clone, Copy, PartialEq, Eq, Hash, Structural)]
pub struct FuzzyDate {
    pub year: i32,
    pub month: Option<u8>,
    pub day: Option<u8>,
}

/// Whether the year of a fuzzy date lies in the range that calendar days cover.
pub open spec fn year_supported(year: int) -> bool {
    MIN_YEAR <= year <= MAX_YEAR
}

/// The month used for a sortable boundary: the given one, else January
/// (earliest) or December (latest).
pub open spec fn boundary_month(date: FuzzyDate, start: bool) -> int {
    match date.month {
        Some(m) => m as int,
        None => if start { 1 } else { 12 },
    }
}

/// The day used for a sortable boundary: the given one, else the first
/// (earliest) or the last day of the boundary month (latest).
pub open spec fn boundary_day(date: FuzzyDate, start: bool) -> int {
    match date.day {
        Some(d) => d as int,
        None => if start { 1 } else { last_day_rule(date.year as int, boundary_month(date, start)) },
    }
}

/// Day number of the earliest (`start`) or latest possible day of a fuzzy
/// date; when month and day do not form a real date, January 1 of its year.
pub open spec fn sortable_day(date: FuzzyDate, start: bool) -> int {
    let m = boundary_month(date, start);
    let d = boundary_day(date, start);
    if civil_date_valid(date.year as int, m, d) {
        days_from_ce(date.year as int, m, d)
    } else {
        days_from_ce(date.year as int, 1, 1)
    }
}

pub fn year_in_range(year: i32) -> (r: bool)
    ensures
        r == year_supported(year as int),
{
    MIN_YEAR <= year && year <= MAX_YEAR
}

impl FuzzyDate {
    pub fn new(year: i32, month: Option<u8>, day: Option<u8>) -> (r: Self)
        ensures
            r == (FuzzyDate { year, month, day }),
    {
        FuzzyDate { year, month, day }
    }

    /// Day number of the earliest (`start`) or latest possible day of this
    /// date, used as a sorting boundary. A month/day that does not exist
    /// falls back to January 1 of the year.
    pub fn to_sortable_date(&self, start: bool) -> (r: i32)
        requires
            year_supported(self.year as int),
        ensures
            r as int == sortable_day(*self, start),
    {
        let m: u32 = match self.month {
            Some(m) => m as u32,
            None => if start { 1 } else { 12 },
        };
        let d: u32 = match self.day {
            Some(d) => d as u32,
            None => if start { 1 } else { last_day_of_month(self.year, m) },
        };
        match day_number_of(self.year, m, d) {
            Some(n) => n,
            None => {
                let fallback = day_number_of(self.year, 1, 1);
                match fallback {
                    Some(n) => n,
                    None => 0,
                }
            }
        }
    }
}

/// A value asserting a historical date, ranging from exact to textual.
#[derive(Debug, PartialEq, Eq)]
pub enum DateValue {
    Exact { date: FuzzyDate, calendar: Calendar },
    Range { from: FuzzyDate, to: FuzzyDate, calendar: Calendar },
    Before { date: FuzzyDate, calendar: Calendar },
    After { date: FuzzyDate, calendar: Calendar },
    About { date: FuzzyDate, calendar: Calendar },
    Tolerance { date: FuzzyDate, plus_minus_days: u32, calendar: Calendar },
    Quarter { year: i32, quarter: u8 },
    Textual { value: String },
}

impl Clone for DateValue {
    fn clone(&self) -> (r: Self)
        ensures
            r == *self,
    {
        match self {
            DateValue::Exact { date, calendar } => DateValue::Exact { date: *date, calendar: *calendar },
            DateValue::Range { from, to, calendar } => DateValue::Range {
                from: *from,
                to: *to,
                calendar: *calendar,
            },
            DateValue::Before { date, calendar } => DateValue::Before { date: *date, calendar: *calendar },
            DateValue::After { date, calendar } => DateValue::After { date: *date, calendar: *calendar },
            DateValue::About { date, calendar } => DateValue::About { date: *date, calendar: *calendar },
            DateValue::Tolerance { date, plus_minus_days, calendar } => DateValue::Tolerance {
                date: *date,
                plus_minus_days: *plus_minus_days,
                calendar: *calendar,
            },
            DateValue::Quarter { year, quarter } => DateValue::Quarter { year: *year, quarter: *quarter },
            DateValue::Textual { value } => DateValue::Textual { value: value.clone() },
        }
    }
}

/// Rust's integer division by two (truncating toward zero).
pub open spec fn half_toward_zero(x: int) -> int {
    if x >= 0 {
        x / 2
    } else {
        -((-x) / 2)
    }
}

/// Whether every year that a date value names lies in the calendar range,
/// so that its chronological center point exists.
pub open spec fn date_value_years_supported(dv: DateValue) -> bool {
    match dv {
        DateValue::Exact { date, .. } => year_supported(date.year as int),
        DateValue::Before { date, .. } => year_supported(date.year as int),
        DateValue::After { date, .. } => year_supported(date.year as int),
        DateValue::About { date, .. } => year_supported(date.year as int),
        DateValue::Tolerance { date, .. } => year_supported(date.year as int),
        DateValue::Range { from, to, .. } => year_supported(from.year as int) && year_supported(
            to.year as int,
        ),
        DateValue::Quarter { year, .. } => year_supported(year as int),
        DateValue::Textual { .. } => true,
    }
}

/// The quarter number clamped into `1..=4`.
pub open spec fn clamp_quarter(q: u8) -> int {
    if q < 1 {
        1
    } else if q > 4 {
        4
    } else {
        q as int
    }
}

/// Day number of the chronological center point of a date value:
/// the earliest day of the single date, the midpoint of a range, the 15th of
/// the middle month of a quarter; a textual date has none.
pub open spec fn date_center(dv: DateValue) -> Option<int> {
    match dv {
        DateValue::Exact { date, .. } => Some(sortable_day(date, true)),
        DateValue::Before { date, .. } => Some(sortable_day(date, true)),
        DateValue::After { date, .. } => Some(sortable_day(date, true)),
        DateValue::About { date, .. } => Some(sortable_day(date, true)),
        DateValue::Tolerance { date, .. } => Some(sortable_day(date, true)),
        DateValue::Range { from, to, .. } => {
            let start = sortable_day(from, true);
            let end = sortable_day(to, false);
            Some(start + half_toward_zero(end - start))
        },
        DateValue::Quarter { year, quarter } => Some(
            days_from_ce(year as int, (clamp_quarter(quarter) - 1) * 3 + 2, 15),
        ),
        DateValue::Textual { .. } => None,
    }
}

impl DateValue {
    /// Whether every year this value names lies in the calendar range.
    pub fn years_supported(&self) -> (r: bool)
        ensures
            r == date_value_years_supported(*self),
    {
        match self {
            DateValue::Exact { date, .. } => year_in_range(date.year),
            DateValue::Before { date, .. } => year_in_range(date.year),
            DateValue::After { date, .. } => year_in_range(date.year),
            DateValue::About { date, .. } => year_in_range(date.year),
            DateValue::Tolerance { date, .. } => year_in_range(date.year),
            DateValue::Range { from, to, .. } => year_in_range(from.year) && year_in_range(to.year),
            DateValue::Quarter { year, .. } => year_in_range(*year),
            DateValue::Textual { .. } => true,
        }
    }

    /// Day number of the chronological center point (see `date_center`).
    pub fn center_day(&self) -> (r: Option<i64>)
        requires
            date_value_years_supported(*self),
        ensures
            r matches Some(n) ==> date_center(*self) == Some(n as int),
            r is None ==> date_center(*self) is None,
    {
        match self {
            DateValue::Exact { date, .. } => Some(date.to_sortable_date(true) as i64),
            DateValue::Before { date, .. } => Some(date.to_sortable_date(true) as i64),
            DateValue::After { date, .. } => Some(date.to_sortable_date(true) as i64),
            DateValue::About { date, .. } => Some(date.to_sortable_date(true) as i64),
            DateValue::Tolerance { date, .. } => Some(date.to_sortable_date(true) as i64),
            DateValue::Range { from, to, .. } => {
                let start = from.to_sortable_date(true) as i64;
                let end = to.to_sortable_date(false) as i64;
                let diff = end - start;
                Some(start + diff / 2)
            },
            DateValue::Quarter { year, quarter } => {
                let q: u8 = if *quarter < 1 {
                    1
                } else if *quarter > 4 {
                    4
                } else {
                    *quarter
                };
                let m: u32 = ((q - 1) as u32) * 3 + 2;
                match day_number_of(*year, m, 15) {
                    Some(n) => Some(n as i64),
                    None => {
                        proof {
                            assert(civil_date_valid(*year as int, m as int, 15));
                        }
                        None
                    },
                }
            },
            DateValue::Textual { .. } => None,
        }
    }
}

/// Standard representation of gender.
#[derive(Debug, PartialEq, Eq)]
pub enum Gender {
    Male,
    Female,
    Unknown,
    Custom(String),
}

impl Clone for Gender {
    fn clone(&self) -> (r: Self)
        ensures
            r == *self,
    {
        match self {
            Gender::Male => Gender::Male,
            Gender::Female => Gender::Female,
            Gender::Unknown => Gender::Unknown,
            Gender::Custom(s) => Gender::Custom(s.clone()),
        }
    }
}

/// Two genders are the same: same variant, and the same text for a custom one.
pub open spec fn same_gender(a: Gender, b: Gender) -> bool {
    match (a, b) {
        (Gender::Male, Gender::Male) => true,
        (Gender::Female, Gender::Female) => true,
        (Gender::Unknown, Gender::Unknown) => true,
        (Gender::Custom(x), Gender::Custom(y)) => x@ == y@,
        _ => false,
    }
}

impl Gender {
    pub fn is_unknown(&self) -> (r: bool)
        ensures
            r == (*self is Unknown),
    {
        match self {
            Gender::Unknown => true,
            _ => false,
        }
    }

    pub fn same_as(&self, other: &Gender) -> (r: bool)
        ensures
            r == same_gender(*self, *other),
    {
        match (self, other) {
            (Gender::Male, Gender::Male) => true,
            (Gender::Female, Gender::Female) => true,
            (Gender::Unknown, Gender::Unknown) => true,
            (Gender::Custom(x), Gender::Custom(y)) => str_eq(x.as_str(), y.as_str()),
            _ => false,
        }
    }
}

/// Who proposed or reviewed something: a user, an agent, or an import job.
#[derive(Debug, PartialEq, Eq)]
pub enum ActorRef {
    User(String),
    Agent(String),
    Import(String),
}

impl Clone for ActorRef {
    fn clone(&self) -> (r: Self)
        ensures
            r == *self,
    {
        match self {
            ActorRef::User(s) => ActorRef::User(s.clone()),
            ActorRef::Agent(s) => ActorRef::Agent(s.clone()),
            ActorRef::Import(s) => ActorRef::Import(s.clone()),
        }
    }
}

/// Text that does not name an actor.
#[derive(Debug, Clone, PartialEq, Eq)]
pub struct ActorRefParseError(pub String);

/// The text form of an actor: "user:", "agent:" or "import:" and its name.
pub open spec fn actor_text(a: ActorRef) -> Seq<char> {
    match a {
        ActorRef::User(s) => "user:"@ + s@,
        ActorRef::Agent(s) => "agent:"@ + s@,
        ActorRef::Import(s) => "import:"@ + s@,
    }
}

/// What parsing the text `s` gives: the part before the first ':' names the
/// kind (user, agent or import), the rest is the name; anything else fails.
pub open spec fn actor_parse_ok(a: ActorRef, s: Seq<char>) -> bool {
    let k = crate::gedcom::mapping::find_char(s, ':');
    &&& k < s.len()
    &&& ({
        let kind = s.subrange(0, k);
        let rest = s.subrange(k + 1, s.len() as int);
        if kind == "user"@ {
            a matches ActorRef::User(x) && x@ == rest
        } else if kind == "agent"@ {
            a matches ActorRef::Agent(x) && x@ == rest
        } else if kind == "import"@ {
            a matches ActorRef::Import(x) && x@ == rest
        } else {
            false
        }
    })
}

/// Whether the text `s` names an actor.
pub open spec fn actor_parses(s: Seq<char>) -> bool {
    let k = crate::gedcom::mapping::find_char(s, ':');
    let kind = s.subrange(0, k);
    k < s.len() && (kind == "user"@ || kind == "agent"@ || kind == "import"@)
}

impl ActorRef {
    /// The text form, "kind:name".
    pub fn to_text(&self) -> (r: String)
        ensures
            r@ == actor_text(*self),
    {
        match self {
            ActorRef::User(s) => {
                let mut out = str_to_string("user:");
                push_str(&mut out, s.as_str());
                out
            },
            ActorRef::Agent(s) => {
                let mut out = str_to_string("agent:");
                push_str(&mut out, s.as_str());
                out
            },
            ActorRef::Import(s) => {
                let mut out = str_to_string("import:");
                push_str(&mut out, s.as_str());
                out
            },
        }
    }

    /// Parses "kind:name" (see `actor_parse_ok`); the error holds the text.
    pub fn parse(s: &str) -> (r: Result<ActorRef, ActorRefParseError>)
        ensures
            match r {
                Ok(a) => actor_parses(s@) && actor_parse_ok(a, s@),
                Err(e) => !actor_parses(s@) && e.0@ == s@,
            },
    {
        let cs = chars_of(s);
        let k = crate::gedcom::mapping::find_char_in(cs.as_slice(), ':');
        if k >= cs.len() {
            return Err(ActorRefParseError(str_to_string(s)));
        }
        let kind = string_of_range(cs.as_slice(), 0, k);
        let rest = string_of_range(cs.as_slice(), k + 1, cs.len());
        if str_eq(kind.as_str(), "user") {
            Ok(ActorRef::User(rest))
        } else if str_eq(kind.as_str(), "agent") {
            Ok(ActorRef::Agent(rest))
        } else if str_eq(kind.as_str(), "import") {
            Ok(ActorRef::Import(rest))
        } else {
            Err(ActorRefParseError(str_to_string(s)))
        }
    }
}

impl std::str::FromStr for ActorRef {
    type Err = ActorRefParseError;

    fn from_str(s: &str) -> (r: Result<Self, Self::Err>)
        ensures
            match r {
                Ok(a) => actor_parses(s@) && actor_parse_ok(a, s@),
                Err(e) => !actor_parses(s@) && e.0@ == s@,
            },
    {
        ActorRef::parse(s)
    }
}

proof fn lemma_find_char_at(s: Seq<char>, c: char, k: int)
    requires
        0 <= k < s.len(),
        s[k] == c,
        forall|i: int| 0 <= i < k ==> s[i] != c,
    ensures
        crate::gedcom::mapping::find_char(s, c) == k,
    decreases k,
{
    if k > 0 {
        let t = s.drop_first();
        assert forall|i: int| 0 <= i < k - 1 implies t[i] != c by {
            assert(t[i] == s[i + 1]);
        }
        lemma_find_char_at(t, c, k - 1);
    }
}

/// An actor's text form parses back to the same actor, whatever its name
/// (a name may itself hold ':').
pub proof fn law_actor_text_round_trip(a: ActorRef)
    ensures
        actor_parses(actor_text(a)),
        actor_parse_ok(a, actor_text(a)),
{
    reveal_strlit("user:");
    reveal_strlit("agent:");
    reveal_strlit("import:");
    reveal_strlit("user");
    reveal_strlit("agent");
    reveal_strlit("import");
    let (p, kind, name) = match a {
        ActorRef::User(x) => ("user:"@, "user"@, x@),
        ActorRef::Agent(x) => ("agent:"@, "agent"@, x@),
        ActorRef::Import(x) => ("import:"@, "import"@, x@),
    };
    let s = actor_text(a);
    assert(s == p + name);
    let k = kind.len() as int;
    assert(p.len() == k + 1);
    assert forall|i: int| 0 <= i < k implies s[i] != ':' by {
        assert(s[i] == p[i]);
    }
    assert(s[k] == ':');
    lemma_find_char_at(s, ':', k);
    assert(s.subrange(0, k) =~= kind);
    assert(s.subrange(k + 1, s.len() as int) =~= name);
    assert("user"@.len() == 4 && "agent"@.len() == 5 && "import"@.len() == 6);
}

} // verus!
