//! Matching imported persons, families and sources against existing ones.
use crate::event::{same_event_type, Event, EventType};
use crate::evidence::Source;
use crate::family::Family;
use crate::gedcom::export::{takes_part, takes_part_in};
use crate::gedcom::sources::{lookup_last, table_get, table_view};
use crate::person::{primary_index, Person, PersonName};
use crate::text::{
    ascii_lower, chars_of, digits_value, is_digit, is_whitespace, is_ws, join, join_strings, new_string,
    push_char, push_str, str_eq, str_to_string, string_from_chars, to_ascii_lower_char, trim, trimmed,
    views,
};
use crate::types::{date_center, uuid_hyphenated_text, Calendar, DateValue, EntityId, FuzzyDate};
use vstd::prelude::*;

verus! {

/// Whether `c` is an ASCII letter or digit.
pub open spec fn is_ascii_alnum(c: char) -> bool {
    ('0' <= c && c <= '9') || ('a' <= c && c <= 'z') || ('A' <= c && c <= 'Z')
}

/// Words found so far and the word being read, scanning `s` from the left:
/// a word is a maximal run of characters satisfying `keep`, each mapped by `f`.
pub open spec fn runs_scan(s: Seq<char>, keep: spec_fn(char) -> bool, f: spec_fn(char) -> char) -> (
    Seq<Seq<char>>,
    Seq<char>,
)
    decreases s.len(),
{
    if s.len() == 0 {
        (Seq::empty(), Seq::empty())
    } else {
        let (done, cur) = runs_scan(s.drop_last(), keep, f);
        let c = s.last();
        if keep(c) {
            (done, cur.push(f(c)))
        } else if cur.len() > 0 {
            (done.push(cur), Seq::empty())
        } else {
            (done, cur)
        }
    }
}

/// The words of `s` (see `runs_scan`).
pub open spec fn runs(s: Seq<char>, keep: spec_fn(char) -> bool, f: spec_fn(char) -> char) -> Seq<Seq<char>> {
    let (done, cur) = runs_scan(s, keep, f);
    if cur.len() > 0 {
        done.push(cur)
    } else {
        done
    }
}

/// Every word found by `runs_scan` so far is non-empty.
proof fn lemma_runs_scan_nonempty(s: Seq<char>, keep: spec_fn(char) -> bool, f: spec_fn(char) -> char)
    ensures
        forall|i: int| 0 <= i < runs_scan(s, keep, f).0.len() ==> (#[trigger] runs_scan(s, keep, f).0[i]).len() > 0,
    decreases s.len(),
{
    if s.len() > 0 {
        lemma_runs_scan_nonempty(s.drop_last(), keep, f);
        let prev = runs_scan(s.drop_last(), keep, f);
        let r = runs_scan(s, keep, f);
        assert forall|i: int| 0 <= i < r.0.len() implies (#[trigger] r.0[i]).len() > 0 by {
            if i < prev.0.len() {
                assert(r.0[i] == prev.0[i]);
            }
        }
    }
}

/// Every word of `runs` is non-empty.
pub proof fn lemma_runs_nonempty(s: Seq<char>, keep: spec_fn(char) -> bool, f: spec_fn(char) -> char)
    ensures
        forall|i: int| 0 <= i < runs(s, keep, f).len() ==> (#[trigger] runs(s, keep, f)[i]).len() > 0,
{
    lemma_runs_scan_nonempty(s, keep, f);
    let r = runs_scan(s, keep, f);
    assert forall|i: int| 0 <= i < runs(s, keep, f).len() implies (#[trigger] runs(s, keep, f)[i]).len() > 0 by {
        if i < r.0.len() {
            assert(runs(s, keep, f)[i] == r.0[i]);
        }
    }
}

/// ASCII alphanumeric runs, lower-cased.
pub open spec fn alnum_keep() -> spec_fn(char) -> bool {
    |c: char| is_ascii_alnum(c)
}

pub open spec fn lower_map() -> spec_fn(char) -> char {
    |c: char| ascii_lower(c)
}

/// Whitespace-separated tokens (`str::split_whitespace`).
pub open spec fn not_ws() -> spec_fn(char) -> bool {
    |c: char| !is_ws(c)
}

pub open spec fn same_char() -> spec_fn(char) -> char {
    |c: char| c
}

/// A text reduced for comparison: its ASCII letters and digits in lower
/// case, in words separated by single spaces.
pub open spec fn normalized_text(s: Seq<char>) -> Seq<char> {
    join(runs(s, alnum_keep(), lower_map()), " "@)
}

pub fn normalize_text(value: &str) -> (r: String)
    ensures
        r@ == normalized_text(value@),
{
    let cs = chars_of(value);
    let mut done: Vec<String> = Vec::new();
    let mut cur: Vec<char> = Vec::new();
    let mut i: usize = 0;
    while i < cs.len()
        invariant
            i <= cs@.len(),
            cs@ == value@,
            views(done@) == runs_scan(cs@.subrange(0, i as int), alnum_keep(), lower_map()).0,
            cur@ == runs_scan(cs@.subrange(0, i as int), alnum_keep(), lower_map()).1,
        decreases cs@.len() - i,
    {
        proof {
            assert(cs@.subrange(0, i + 1).drop_last() =~= cs@.subrange(0, i as int));
        }
        let c = cs[i];
        if ('0' <= c && c <= '9') || ('a' <= c && c <= 'z') || ('A' <= c && c <= 'Z') {
            cur.push(to_ascii_lower_char(c));
        } else if cur.len() > 0 {
            let w = string_from_chars(cur.as_slice());
            let ghost before = done@;
            done.push(w);
            proof {
                assert(views(done@) =~= views(before).push(w@));
            }
            cur = Vec::new();
        }
        i = i + 1;
    }
    proof {
        assert(cs@.subrange(0, i as int) =~= cs@);
    }
    if cur.len() > 0 {
        let w = string_from_chars(cur.as_slice());
        let ghost before = done@;
        done.push(w);
        proof {
            assert(views(done@) =~= views(before).push(w@));
        }
    }
    join_strings(&done, " ")
}

/// The whitespace-separated tokens of a text.
fn ws_tokens(value: &str) -> (r: Vec<Vec<char>>)
    ensures
        r@.len() == runs(value@, not_ws(), same_char()).len(),
        forall|i: int| 0 <= i < r@.len() ==> (#[trigger] r@[i])@ == runs(value@, not_ws(), same_char())[i],
{
    let cs = chars_of(value);
    let mut done: Vec<Vec<char>> = Vec::new();
    let mut cur: Vec<char> = Vec::new();
    let mut i: usize = 0;
    while i < cs.len()
        invariant
            i <= cs@.len(),
            cs@ == value@,
            done@.len() == runs_scan(cs@.subrange(0, i as int), not_ws(), same_char()).0.len(),
            forall|k: int|
                0 <= k < done@.len() ==> (#[trigger] done@[k])@ == runs_scan(
                    cs@.subrange(0, i as int),
                    not_ws(),
                    same_char(),
                ).0[k],
            cur@ == runs_scan(cs@.subrange(0, i as int), not_ws(), same_char()).1,
        decreases cs@.len() - i,
    {
        proof {
            assert(cs@.subrange(0, i + 1).drop_last() =~= cs@.subrange(0, i as int));
        }
        let c = cs[i];
        if !is_whitespace(c) {
            cur.push(c);
        } else if cur.len() > 0 {
            done.push(cur);
            cur = Vec::new();
        }
        i = i + 1;
    }
    proof {
        assert(cs@.subrange(0, i as int) =~= cs@);
    }
    if cur.len() > 0 {
        done.push(cur);
    }
    done
}

/// A loose name match: equal, or the same last word and the same first
/// letter of the first word.
pub open spec fn fuzzy_names(l: Seq<char>, r: Seq<char>) -> bool {
    let lt = runs(l, not_ws(), same_char());
    let rt = runs(r, not_ws(), same_char());
    l == r || (lt.len() > 0 && rt.len() > 0 && lt.last() == rt.last() && lt[0][0] == rt[0][0])
}

pub fn fuzzy_name_match(left: &str, right: &str) -> (r: bool)
    ensures
        r == fuzzy_names(left@, right@),
{
    if str_eq(left, right) {
        return true;
    }
    let lt = ws_tokens(left);
    let rt = ws_tokens(right);
    proof {
        lemma_runs_nonempty(left@, not_ws(), same_char());
        lemma_runs_nonempty(right@, not_ws(), same_char());
    }
    if lt.len() == 0 || rt.len() == 0 {
        return false;
    }
    let ll = &lt[lt.len() - 1];
    let rl = &rt[rt.len() - 1];
    if !crate::text::chars_eq(ll.as_slice(), rl.as_slice()) {
        return false;
    }
    proof {
        assert(lt@[0]@.len() > 0);
        assert(rt@[0]@.len() > 0);
    }
    lt[0][0] == rt[0][0]
}

/// Two dates are the same: the same value (textual dates by their text).
pub open spec fn date_eq(a: DateValue, b: DateValue) -> bool {
    match (a, b) {
        (DateValue::Textual { value: x }, DateValue::Textual { value: y }) => x@ == y@,
        (DateValue::Textual { .. }, _) => false,
        (_, DateValue::Textual { .. }) => false,
        _ => a == b,
    }
}

pub fn same_date(a: &DateValue, b: &DateValue) -> (r: bool)
    ensures
        r == date_eq(*a, *b),
{
    match (a, b) {
        (DateValue::Textual { value: x }, DateValue::Textual { value: y }) => str_eq(x.as_str(), y.as_str()),
        (DateValue::Exact { date: d1, calendar: c1 }, DateValue::Exact { date: d2, calendar: c2 }) => d1 == d2 && c1 == c2,
        (DateValue::Range { from: f1, to: t1, calendar: c1 }, DateValue::Range { from: f2, to: t2, calendar: c2 }) => f1 == f2 && t1 == t2 && c1 == c2,
        (DateValue::Before { date: d1, calendar: c1 }, DateValue::Before { date: d2, calendar: c2 }) => d1 == d2 && c1 == c2,
        (DateValue::After { date: d1, calendar: c1 }, DateValue::After { date: d2, calendar: c2 }) => d1 == d2 && c1 == c2,
        (DateValue::About { date: d1, calendar: c1 }, DateValue::About { date: d2, calendar: c2 }) => d1 == d2 && c1 == c2,
        (
            DateValue::Tolerance { date: d1, plus_minus_days: p1, calendar: c1 },
            DateValue::Tolerance { date: d2, plus_minus_days: p2, calendar: c2 },
        ) => d1 == d2 && p1 == p2 && c1 == c2,
        (DateValue::Quarter { year: y1, quarter: q1 }, DateValue::Quarter { year: y2, quarter: q2 }) => y1 == y2 && q1 == q2,
        _ => false,
    }
}

/// Two optional dates are both present and the same.
pub open spec fn dates_match(l: Option<DateValue>, r: Option<DateValue>) -> bool {
    match (l, r) {
        (Some(a), Some(b)) => date_eq(a, b),
        _ => false,
    }
}

pub fn dates_equal(left: Option<&DateValue>, right: Option<&DateValue>) -> (r: bool)
    ensures
        r == dates_match(
            match left {
                Some(d) => Some(*d),
                None => None,
            },
            match right {
                Some(d) => Some(*d),
                None => None,
            },
        ),
{
    match (left, right) {
        (Some(a), Some(b)) => same_date(a, b),
        _ => false,
    }
}

/// The digits kept while scanning for a year: a run of ASCII digits, reset
/// by any other character, stopping at four.
pub open spec fn year_digits(s: Seq<char>, acc: Seq<char>) -> Seq<char>
    decreases s.len(),
{
    if acc.len() >= 4 || s.len() == 0 {
        acc
    } else if is_digit(s[0]) {
        year_digits(s.drop_first(), acc.push(s[0]))
    } else {
        year_digits(s.drop_first(), Seq::empty())
    }
}

/// The first run of four ASCII digits in a text, as a number.
pub open spec fn first_year(s: Seq<char>) -> Option<i32> {
    let d = year_digits(s, Seq::empty());
    if d.len() == 4 {
        Some(digits_value(d) as i32)
    } else {
        None
    }
}

pub proof fn lemma_year_digits(s: Seq<char>, acc: Seq<char>)
    requires
        acc.len() <= 4,
        forall|i: int| 0 <= i < acc.len() ==> is_digit(acc[i]),
    ensures
        year_digits(s, acc).len() <= 4,
        forall|i: int| 0 <= i < year_digits(s, acc).len() ==> is_digit(#[trigger] year_digits(s, acc)[i]),
    decreases s.len(),
{
    if acc.len() < 4 && s.len() > 0 {
        if is_digit(s[0]) {
            lemma_year_digits(s.drop_first(), acc.push(s[0]));
        } else {
            lemma_year_digits(s.drop_first(), Seq::empty());
        }
    }
}

/// Ten to the power `n`.
pub open spec fn pow10(n: nat) -> int
    decreases n,
{
    if n == 0 {
        1
    } else {
        10 * pow10((n - 1) as nat)
    }
}

/// A run of `n` decimal digits has a value below `10^n`.
pub proof fn lemma_digits_below_pow10(d: Seq<char>)
    requires
        forall|i: int| 0 <= i < d.len() ==> is_digit(d[i]),
    ensures
        0 <= digits_value(d) < pow10(d.len()),
    decreases d.len(),
{
    if d.len() > 0 {
        let e = d.drop_last();
        lemma_digits_below_pow10(e);
        let v = digits_value(e);
        let p = pow10(e.len());
        let c = d.last() as int - '0' as int;
        assert(is_digit(d[d.len() - 1]));
        assert(0 <= c <= 9);
        assert(0 <= v * 10 + c < p * 10) by (nonlinear_arith)
            requires
                0 <= v < p,
                0 <= c <= 9,
        ;
    }
}

pub proof fn lemma_four_digits_value(d: Seq<char>)
    requires
        d.len() <= 4,
        forall|i: int| 0 <= i < d.len() ==> is_digit(d[i]),
    ensures
        0 <= digits_value(d) < 10000,
{
    lemma_digits_below_pow10(d);
    assert(pow10(4) == 10000) by {
        reveal_with_fuel(pow10, 5);
    }
    assert(pow10(d.len()) <= 10000) by {
        reveal_with_fuel(pow10, 5);
    }
}

pub fn first_four_digit_year(value: &str) -> (r: Option<i32>)
    ensures
        r == first_year(value@),
{
    let cs = chars_of(value);
    let mut digits: Vec<char> = Vec::new();
    let mut i: usize = 0;
    proof {
        assert(cs@.subrange(0, cs@.len() as int) =~= cs@);
    }
    while i < cs.len() && digits.len() < 4
        invariant
            i <= cs@.len(),
            cs@ == value@,
            digits@.len() <= 4,
            forall|k: int| 0 <= k < digits@.len() ==> is_digit(digits@[k]),
            year_digits(value@, Seq::empty()) == year_digits(cs@.subrange(i as int, cs@.len() as int), digits@),
        decreases cs@.len() - i,
    {
        let ghost rest = cs@.subrange(i as int, cs@.len() as int);
        proof {
            assert(rest.drop_first() =~= cs@.subrange(i + 1, cs@.len() as int));
            assert(rest[0] == cs@[i as int]);
        }
        let c = cs[i];
        if '0' <= c && c <= '9' {
            digits.push(c);
        } else {
            digits = Vec::new();
        }
        i = i + 1;
    }
    proof {
        lemma_year_digits(value@, Seq::empty());
    }
    if digits.len() == 4 {
        let mut v: i32 = 0;
        let mut k: usize = 0;
        while k < 4
            invariant
                k <= 4,
                digits@.len() == 4,
                forall|m: int| 0 <= m < 4 ==> is_digit(digits@[m]),
                v as int == digits_value(digits@.subrange(0, k as int)),
            decreases 4 - k,
        {
            proof {
                let a = digits@.subrange(0, k + 1);
                assert(a.drop_last() =~= digits@.subrange(0, k as int));
                lemma_four_digits_value(digits@.subrange(0, k as int));
                assert forall|m: int| 0 <= m < k implies is_digit(digits@.subrange(0, k as int)[m]) by {}
            }
            v = v * 10 + ((digits[k] as u32) - ('0' as u32)) as i32;
            k = k + 1;
        }
        proof {
            assert(digits@.subrange(0, 4) =~= digits@);
        }
        Some(v)
    } else {
        None
    }
}

/// The year of a birth date, when one can be told.
pub open spec fn birth_year_of(d: Option<DateValue>) -> Option<i32> {
    match d {
        Some(DateValue::Exact { date, .. }) => Some(date.year),
        Some(DateValue::Before { date, .. }) => Some(date.year),
        Some(DateValue::After { date, .. }) => Some(date.year),
        Some(DateValue::About { date, .. }) => Some(date.year),
        Some(DateValue::Tolerance { date, .. }) => Some(date.year),
        Some(DateValue::Range { from, .. }) => Some(from.year),
        Some(DateValue::Quarter { year, .. }) => Some(year),
        Some(DateValue::Textual { value }) => first_year(value@),
        None => None,
    }
}

/// The birth year of a date is the year of the day it names, whatever the
/// qualifier: an exact date, "about", "before", "after" and a tolerance
/// around the same day all give that day's year; a range gives the year it
/// starts in; a quarter its year.
pub proof fn law_birth_year_ignores_qualifier(f: FuzzyDate, to: FuzzyDate, c: Calendar, c2: Calendar, pm: u32, y: i32, q: u8)
    ensures
        birth_year_of(Some(DateValue::Exact { date: f, calendar: c })) == Some(f.year),
        birth_year_of(Some(DateValue::About { date: f, calendar: c2 })) == birth_year_of(
            Some(DateValue::Exact { date: f, calendar: c }),
        ),
        birth_year_of(Some(DateValue::Before { date: f, calendar: c2 })) == birth_year_of(
            Some(DateValue::Exact { date: f, calendar: c }),
        ),
        birth_year_of(Some(DateValue::After { date: f, calendar: c2 })) == birth_year_of(
            Some(DateValue::Exact { date: f, calendar: c }),
        ),
        birth_year_of(Some(DateValue::Tolerance { date: f, plus_minus_days: pm, calendar: c2 })) == birth_year_of(
            Some(DateValue::Exact { date: f, calendar: c }),
        ),
        birth_year_of(Some(DateValue::Range { from: f, to, calendar: c2 })) == birth_year_of(
            Some(DateValue::Exact { date: f, calendar: c }),
        ),
        birth_year_of(Some(DateValue::Quarter { year: y, quarter: q })) == Some(y),
{
}

/// Every date that has a place in time (a center day, see
/// `date_center`) has a birth year, and so can be compared by year.
pub proof fn law_dated_values_have_birth_year(d: DateValue)
    requires
        date_center(d) is Some,
    ensures
        birth_year_of(Some(d)) is Some,
{
}

pub fn birth_year(date: Option<&DateValue>) -> (r: Option<i32>)
    ensures
        r == birth_year_of(
            match date {
                Some(d) => Some(*d),
                None => None,
            },
        ),
{
    match date {
        Some(DateValue::Exact { date, .. }) => Some(date.year),
        Some(DateValue::Before { date, .. }) => Some(date.year),
        Some(DateValue::After { date, .. }) => Some(date.year),
        Some(DateValue::About { date, .. }) => Some(date.year),
        Some(DateValue::Tolerance { date, .. }) => Some(date.year),
        Some(DateValue::Range { from, .. }) => Some(from.year),
        Some(DateValue::Quarter { year, .. }) => Some(*year),
        Some(DateValue::Textual { value }) => first_four_digit_year(value.as_str()),
        None => None,
    }
}


/// How sure a match between an imported and an existing record is.
#[derive(Debug, Clone, Copy, PartialEq, Eq, Structural)]
pub enum MatchConfidence {
    Exact,
    High,
    Medium,
}

/// The kind of record a `GedcomRef` names.
#[derive(Debug, Clone, Copy, PartialEq, Eq, Structural)]
pub enum RefKind {
    Person,
    Family,
    Source,
}

/// An imported record, by its xref and a readable label.
#[derive(Debug, PartialEq, Eq)]
pub enum GedcomRef {
    Person { xref: Option<String>, label: String },
    Family { xref: Option<String>, label: String },
    Source { xref: Option<String>, label: String },
}

impl View for GedcomRef {
    type V = (RefKind, Option<Seq<char>>, Seq<char>);

    open spec fn view(&self) -> (RefKind, Option<Seq<char>>, Seq<char>) {
        match self {
            GedcomRef::Person { xref, label } => (RefKind::Person, xref.deep_view(), label@),
            GedcomRef::Family { xref, label } => (RefKind::Family, xref.deep_view(), label@),
            GedcomRef::Source { xref, label } => (RefKind::Source, xref.deep_view(), label@),
        }
    }
}

fn copy_opt_text(o: &Option<String>) -> (r: Option<String>)
    ensures
        r.deep_view() == o.deep_view(),
{
    match o {
        Some(s) => Some(s.clone()),
        None => None,
    }
}

impl Clone for GedcomRef {
    fn clone(&self) -> (r: Self)
        ensures
            r@ == self@,
    {
        match self {
            GedcomRef::Person { xref, label } => GedcomRef::Person { xref: copy_opt_text(xref), label: label.clone() },
            GedcomRef::Family { xref, label } => GedcomRef::Family { xref: copy_opt_text(xref), label: label.clone() },
            GedcomRef::Source { xref, label } => GedcomRef::Source { xref: copy_opt_text(xref), label: label.clone() },
        }
    }
}

/// An imported record matched to an existing entity.
#[derive(Debug, PartialEq, Eq)]
pub struct MatchedEntity {
    pub gedcom_ref: GedcomRef,
    pub entity_id: EntityId,
    pub confidence: MatchConfidence,
}

impl View for MatchedEntity {
    type V = ((RefKind, Option<Seq<char>>, Seq<char>), EntityId, MatchConfidence);

    open spec fn view(&self) -> ((RefKind, Option<Seq<char>>, Seq<char>), EntityId, MatchConfidence) {
        (self.gedcom_ref@, self.entity_id, self.confidence)
    }
}

impl Clone for MatchedEntity {
    fn clone(&self) -> (r: Self)
        ensures
            r@ == self@,
    {
        MatchedEntity { gedcom_ref: self.gedcom_ref.clone(), entity_id: self.entity_id, confidence: self.confidence }
    }
}

/// The matched and the unmatched imported records, each in input order.
#[derive(Debug, PartialEq, Eq)]
pub struct MatchResult {
    pub matched: Vec<MatchedEntity>,
    pub unmatched: Vec<GedcomRef>,
}

pub open spec fn matched_views(s: Seq<MatchedEntity>) -> Seq<((RefKind, Option<Seq<char>>, Seq<char>), EntityId, MatchConfidence)> {
    s.map_values(|m: MatchedEntity| m@)
}

pub open spec fn ref_views(s: Seq<GedcomRef>) -> Seq<(RefKind, Option<Seq<char>>, Seq<char>)> {
    s.map_values(|r: GedcomRef| r@)
}

impl View for MatchResult {
    type V = (Seq<((RefKind, Option<Seq<char>>, Seq<char>), EntityId, MatchConfidence)>, Seq<(RefKind, Option<Seq<char>>, Seq<char>)>);

    open spec fn view(&self) -> Self::V {
        (matched_views(self.matched@), ref_views(self.unmatched@))
    }
}

impl Default for MatchResult {
    fn default() -> (r: Self)
        ensures
            r.matched@.len() == 0,
            r.unmatched@.len() == 0,
    {
        MatchResult { matched: Vec::new(), unmatched: Vec::new() }
    }
}

/// The given names of a person's primary name.
pub open spec fn primary_given(p: Person) -> Seq<char> {
    if p.names@.len() == 0 {
        seq!['U', 'n', 'k', 'n', 'o', 'w', 'n']
    } else {
        p.names@[primary_index(p.names@)].given_names@
    }
}

/// The first surname of a person's primary name, or nothing.
pub open spec fn primary_surname(p: Person) -> Seq<char> {
    if p.names@.len() == 0 {
        Seq::empty()
    } else {
        let n = p.names@[primary_index(p.names@)];
        if n.surnames@.len() > 0 {
            n.surnames@[0].value@
        } else {
            Seq::empty()
        }
    }
}

/// The primary given names and first surname of a person.
fn primary_parts(p: &Person) -> (r: (String, String))
    ensures
        r.0@ == primary_given(*p),
        r.1@ == primary_surname(*p),
{
    let n = p.primary_name();
    let surname = if n.surnames.len() > 0 {
        n.surnames[0].value.clone()
    } else {
        new_string()
    };
    (n.given_names, surname)
}

/// A readable label for a person: the trimmed given names and first
/// surname, or `unknown-person`.
pub open spec fn person_label_text(p: Person) -> Seq<char> {
    let g = trim(primary_given(p));
    let s = trim(primary_surname(p));
    if g.len() == 0 && s.len() == 0 {
        "unknown-person"@
    } else if s.len() == 0 {
        g
    } else if g.len() == 0 {
        s
    } else {
        g + " "@ + s
    }
}

pub fn person_label(p: &Person) -> (r: String)
    ensures
        r@ == person_label_text(*p),
{
    let (given, surname) = primary_parts(p);
    let g = trimmed(given.as_str());
    let s = trimmed(surname.as_str());
    let g_empty = g.as_str().is_empty();
    let s_empty = s.as_str().is_empty();
    if g_empty && s_empty {
        str_to_string("unknown-person")
    } else if s_empty {
        g
    } else if g_empty {
        s
    } else {
        let mut out = g;
        push_str(&mut out, " ");
        push_str(&mut out, s.as_str());
        out
    }
}

/// An identifier as text, or `none`.
pub open spec fn id_label(id: Option<EntityId>) -> Seq<char> {
    match id {
        Some(i) => uuid_hyphenated_text(i.0),
        None => "none"@,
    }
}

/// A readable label for a family: its partners' identifiers.
pub open spec fn family_label_text(f: Family) -> Seq<char> {
    id_label(f.partner1_id) + ":"@ + id_label(f.partner2_id)
}

fn id_label_string(id: Option<EntityId>) -> (r: String)
    ensures
        r@ == id_label(id),
{
    match id {
        Some(i) => i.to_text(),
        None => str_to_string("none"),
    }
}

pub fn family_label(f: &Family) -> (r: String)
    ensures
        r@ == family_label_text(*f),
{
    let mut out = id_label_string(f.partner1_id);
    push_str(&mut out, ":");
    let p2 = id_label_string(f.partner2_id);
    push_str(&mut out, p2.as_str());
    out
}

/// A person's primary name reduced for comparison.
pub open spec fn normalized_name_of(p: Person) -> Seq<char> {
    normalized_text(primary_given(p) + " "@ + primary_surname(p))
}

pub fn normalized_primary_name(p: &Person) -> (r: String)
    ensures
        r@ == normalized_name_of(*p),
{
    let (given, surname) = primary_parts(p);
    let mut full = given;
    push_str(&mut full, " ");
    push_str(&mut full, surname.as_str());
    normalize_text(full.as_str())
}


/// Index of the first event from `i` on whose type is `t` and in which `id`
/// takes part (the length when there is none).
pub open spec fn first_event_from(events: Seq<Event>, id: EntityId, t: EventType, i: int) -> int
    decreases events.len() - i,
{
    if i < 0 || i >= events.len() {
        events.len() as int
    } else if same_event_type(events[i].event_type, t) && takes_part(events[i], id) {
        i
    } else {
        first_event_from(events, id, t, i + 1)
    }
}

/// The date of the first event of type `t` in which `id` takes part.
pub open spec fn event_date_for(events: Seq<Event>, id: EntityId, t: EventType) -> Option<DateValue> {
    let k = first_event_from(events, id, t, 0);
    if 0 <= k < events.len() {
        events[k].date
    } else {
        None
    }
}

/// A borrowed optional date, as a value.
pub open spec fn opt_date(o: Option<&DateValue>) -> Option<DateValue> {
    match o {
        Some(d) => Some(*d),
        None => None,
    }
}

pub fn person_event_date<'a>(id: EntityId, events: &'a [Event], t: &EventType) -> (r: Option<&'a DateValue>)
    ensures
        opt_date(r) == event_date_for(events@, id, *t),
{
    let mut i: usize = 0;
    while i < events.len()
        invariant
            i <= events@.len(),
            first_event_from(events@, id, *t, 0) == first_event_from(events@, id, *t, i as int),
        decreases events@.len() - i,
    {
        if events[i].event_type.same_as(t) && takes_part_in(&events[i], id) {
            return match &events[i].date {
                Some(d) => Some(d),
                None => None,
            };
        }
        i = i + 1;
    }
    None
}

/// The last existing person recorded under the xref `x`.
pub open spec fn person_with_xref(ep: Seq<Person>, x: Seq<char>) -> Option<EntityId>
    decreases ep.len(),
{
    if ep.len() == 0 {
        None
    } else if ep.last().original_xref.deep_view() == Some(x) {
        Some(ep.last().id)
    } else {
        person_with_xref(ep.drop_last(), x)
    }
}

fn find_person_with_xref(ep: &[Person], x: &str) -> (r: Option<EntityId>)
    ensures
        r == person_with_xref(ep@, x@),
{
    let mut j = ep.len();
    proof {
        assert(ep@.subrange(0, j as int) =~= ep@);
    }
    while j > 0
        invariant
            j <= ep@.len(),
            person_with_xref(ep@, x@) == person_with_xref(ep@.subrange(0, j as int), x@),
        decreases j,
    {
        proof {
            assert(ep@.subrange(0, j as int).drop_last() =~= ep@.subrange(0, j - 1));
        }
        let p = &ep[j - 1];
        match &p.original_xref {
            Some(px) => {
                if str_eq(px.as_str(), x) {
                    return Some(p.id);
                }
            },
            None => {},
        }
        j = j - 1;
    }
    None
}

/// The entity an imported person is matched to by its xref: first through
/// the earlier import's table, then through the existing persons' xrefs.
pub open spec fn exact_person(p: Person, ep: Seq<Person>, prior: Seq<(Seq<char>, EntityId)>) -> Option<EntityId> {
    match p.original_xref.deep_view() {
        Some(x) => match lookup_last(prior, x) {
            Some(id) => Some(id),
            None => person_with_xref(ep, x),
        },
        None => None,
    }
}

/// The existing persons that an imported person (by its normalized name and
/// birth date) could be: the first one with the same name and birth date,
/// and the last one with a loosely matching name and the same birth year;
/// persons already used are passed over.
pub open spec fn person_candidates(
    gname: Seq<char>,
    gbirth: Option<DateValue>,
    ep: Seq<Person>,
    ee: Seq<Event>,
    used: Seq<EntityId>,
) -> (Option<EntityId>, Option<EntityId>)
    decreases ep.len(),
{
    if ep.len() == 0 {
        (None, None)
    } else {
        let (h, m) = person_candidates(gname, gbirth, ep.drop_last(), ee, used);
        let e = ep.last();
        let ename = normalized_name_of(e);
        let eb = event_date_for(ee, e.id, EventType::Birth);
        if h is Some || used.contains(e.id) || ename.len() == 0 || gname.len() == 0 {
            (h, m)
        } else if gname == ename && dates_match(gbirth, eb) {
            (Some(e.id), m)
        } else if fuzzy_names(gname, ename) && birth_year_of(gbirth) is Some && birth_year_of(gbirth)
            == birth_year_of(eb) {
            (h, Some(e.id))
        } else {
            (h, m)
        }
    }
}

/// What becomes of one imported person, given the entities already used.
pub open spec fn person_outcome(
    p: Person,
    ge: Seq<Event>,
    ep: Seq<Person>,
    ee: Seq<Event>,
    prior: Seq<(Seq<char>, EntityId)>,
    used: Seq<EntityId>,
) -> Option<(EntityId, MatchConfidence)> {
    match exact_person(p, ep, prior) {
        Some(id) => Some((id, MatchConfidence::Exact)),
        None => {
            let (h, m) = person_candidates(
                normalized_name_of(p),
                event_date_for(ge, p.id, EventType::Birth),
                ep,
                ee,
                used,
            );
            match h {
                Some(id) => Some((id, MatchConfidence::High)),
                None => match m {
                    Some(id) => Some((id, MatchConfidence::Medium)),
                    None => None,
                },
            }
        },
    }
}

/// The reference to an imported person.
pub open spec fn person_ref_view(p: Person) -> (RefKind, Option<Seq<char>>, Seq<char>) {
    (RefKind::Person, p.original_xref.deep_view(), person_label_text(p))
}

/// Matching imported persons in order: the matched ones, the unmatched
/// ones, and the entities used so far.
pub open spec fn person_matching(
    gp: Seq<Person>,
    ge: Seq<Event>,
    ep: Seq<Person>,
    ee: Seq<Event>,
    prior: Seq<(Seq<char>, EntityId)>,
) -> (
    Seq<((RefKind, Option<Seq<char>>, Seq<char>), EntityId, MatchConfidence)>,
    Seq<(RefKind, Option<Seq<char>>, Seq<char>)>,
    Seq<EntityId>,
)
    decreases gp.len(),
{
    if gp.len() == 0 {
        (Seq::empty(), Seq::empty(), Seq::empty())
    } else {
        let (m, u, used) = person_matching(gp.drop_last(), ge, ep, ee, prior);
        let p = gp.last();
        match person_outcome(p, ge, ep, ee, prior, used) {
            Some((id, c)) => (m.push((person_ref_view(p), id, c)), u, used.push(id)),
            None => (m, u.push(person_ref_view(p)), used),
        }
    }
}

pub fn contains_id(v: &[EntityId], id: EntityId) -> (r: bool)
    ensures
        r == v@.contains(id),
{
    let mut i: usize = 0;
    while i < v.len()
        invariant
            i <= v@.len(),
            forall|k: int| 0 <= k < i ==> v@[k] != id,
        decreases v@.len() - i,
    {
        if v[i] == id {
            proof {
                assert(v@[i as int] == id);
            }
            return true;
        }
        i = i + 1;
    }
    false
}

fn exact_person_match(p: &Person, ep: &[Person], prior: &[(String, EntityId)]) -> (r: Option<EntityId>)
    ensures
        r == exact_person(*p, ep@, table_view(prior@)),
{
    match &p.original_xref {
        Some(x) => match table_get(prior, x.as_str()) {
            Some(id) => Some(id),
            None => find_person_with_xref(ep, x.as_str()),
        },
        None => None,
    }
}

fn person_candidates_of(
    gname: &str,
    gbirth: Option<&DateValue>,
    ep: &[Person],
    ee: &[Event],
    used: &[EntityId],
) -> (r: (Option<EntityId>, Option<EntityId>))
    ensures
        r == person_candidates(gname@, opt_date(gbirth), ep@, ee@, used@),
{
    let gyear = birth_year(gbirth);
    let gempty = gname.is_empty();
    let mut high: Option<EntityId> = None;
    let mut medium: Option<EntityId> = None;
    let mut i: usize = 0;
    while i < ep.len()
        invariant
            i <= ep@.len(),
            gempty == (gname@.len() == 0),
            gyear == birth_year_of(opt_date(gbirth)),
            (high, medium) == person_candidates(gname@, opt_date(gbirth), ep@.subrange(0, i as int), ee@, used@),
        decreases ep@.len() - i,
    {
        proof {
            assert(ep@.subrange(0, i + 1).drop_last() =~= ep@.subrange(0, i as int));
        }
        let e = &ep[i];
        if high.is_none() && !contains_id(used, e.id) {
            let ename = normalized_primary_name(e);
            if !ename.as_str().is_empty() && !gempty {
                let eb = person_event_date(e.id, ee, &EventType::Birth);
                if str_eq(gname, ename.as_str()) && dates_equal(gbirth, eb) {
                    high = Some(e.id);
                } else if fuzzy_name_match(gname, ename.as_str()) && gyear.is_some() && gyear == birth_year(eb) {
                    medium = Some(e.id);
                }
            }
        }
        i = i + 1;
    }
    proof {
        assert(ep@.subrange(0, i as int) =~= ep@);
    }
    (high, medium)
}

fn person_outcome_of(
    p: &Person,
    ge: &[Event],
    ep: &[Person],
    ee: &[Event],
    prior: &[(String, EntityId)],
    used: &[EntityId],
) -> (r: Option<(EntityId, MatchConfidence)>)
    ensures
        r == person_outcome(*p, ge@, ep@, ee@, table_view(prior@), used@),
{
    match exact_person_match(p, ep, prior) {
        Some(id) => Some((id, MatchConfidence::Exact)),
        None => {
            let gbirth = person_event_date(p.id, ge, &EventType::Birth);
            let gname = normalized_primary_name(p);
            let (h, m) = person_candidates_of(gname.as_str(), gbirth, ep, ee, used);
            match h {
                Some(id) => Some((id, MatchConfidence::High)),
                None => match m {
                    Some(id) => Some((id, MatchConfidence::Medium)),
                    None => None,
                },
            }
        },
    }
}

/// Matches imported persons to existing ones: by xref (through
/// `prior_xref_map`, then the existing persons' xrefs) with exact
/// confidence; else by the same normalized name and birth date with high
/// confidence; else by a loosely matching name and the same birth year with
/// medium confidence. An existing person matched by name is not matched
/// again by name.
pub fn match_persons(
    gedcom_persons: &[Person],
    gedcom_events: &[Event],
    existing_persons: &[Person],
    existing_events: &[Event],
    prior_xref_map: &[(String, EntityId)],
) -> (r: MatchResult)
    ensures
        r@.0 == person_matching(
            gedcom_persons@,
            gedcom_events@,
            existing_persons@,
            existing_events@,
            table_view(prior_xref_map@),
        ).0,
        r@.1 == person_matching(
            gedcom_persons@,
            gedcom_events@,
            existing_persons@,
            existing_events@,
            table_view(prior_xref_map@),
        ).1,
{
    let ghost prior = table_view(prior_xref_map@);
    let mut matched: Vec<MatchedEntity> = Vec::new();
    let mut unmatched: Vec<GedcomRef> = Vec::new();
    let mut used: Vec<EntityId> = Vec::new();
    let mut i: usize = 0;
    while i < gedcom_persons.len()
        invariant
            i <= gedcom_persons@.len(),
            prior == table_view(prior_xref_map@),
            (matched_views(matched@), ref_views(unmatched@), used@) == person_matching(
                gedcom_persons@.subrange(0, i as int),
                gedcom_events@,
                existing_persons@,
                existing_events@,
                prior,
            ),
        decreases gedcom_persons@.len() - i,
    {
        proof {
            assert(gedcom_persons@.subrange(0, i + 1).drop_last() =~= gedcom_persons@.subrange(0, i as int));
        }
        let p = &gedcom_persons[i];
        let gedcom_ref = GedcomRef::Person { xref: copy_opt_text(&p.original_xref), label: person_label(p) };
        let ghost mv = matched@;
        let ghost uv = unmatched@;
        match person_outcome_of(p, gedcom_events, existing_persons, existing_events, prior_xref_map, used.as_slice()) {
            Some((id, c)) => {
                matched.push(MatchedEntity { gedcom_ref, entity_id: id, confidence: c });
                used.push(id);
                proof {
                    assert(matched_views(matched@) =~= matched_views(mv).push(matched@.last()@));
                }
            },
            None => {
                unmatched.push(gedcom_ref);
                proof {
                    assert(ref_views(unmatched@) =~= ref_views(uv).push(unmatched@.last()@));
                }
            },
        }
        i = i + 1;
    }
    proof {
        assert(gedcom_persons@.subrange(0, i as int) =~= gedcom_persons@);
    }
    MatchResult { matched, unmatched }
}


/// The entity recorded last for `key` in a table of pairs.
pub open spec fn id_lookup_last(map: Seq<(EntityId, EntityId)>, key: EntityId) -> Option<EntityId>
    decreases map.len(),
{
    if map.len() == 0 {
        None
    } else if map.last().0 == key {
        Some(map.last().1)
    } else {
        id_lookup_last(map.drop_last(), key)
    }
}

fn id_table_get(map: &[(EntityId, EntityId)], key: EntityId) -> (r: Option<EntityId>)
    ensures
        r == id_lookup_last(map@, key),
{
    let mut j = map.len();
    proof {
        assert(map@.subrange(0, j as int) =~= map@);
    }
    while j > 0
        invariant
            j <= map@.len(),
            id_lookup_last(map@, key) == id_lookup_last(map@.subrange(0, j as int), key),
        decreases j,
    {
        proof {
            assert(map@.subrange(0, j as int).drop_last() =~= map@.subrange(0, j - 1));
        }
        if map[j - 1].0 == key {
            return Some(map[j - 1].1);
        }
        j = j - 1;
    }
    None
}

/// A partner of an imported family, mapped to the existing person it matched.
pub open spec fn mapped_partner(map: Seq<(EntityId, EntityId)>, id: Option<EntityId>) -> Option<EntityId> {
    match id {
        Some(k) => id_lookup_last(map, k),
        None => None,
    }
}

/// Two partners in a fixed order (the smaller identifier first), when both
/// are known.
pub open spec fn canonical_pair_of(a: Option<EntityId>, b: Option<EntityId>) -> Option<(EntityId, EntityId)> {
    match (a, b) {
        (Some(x), Some(y)) => if x.0 <= y.0 {
            Some((x, y))
        } else {
            Some((y, x))
        },
        _ => None,
    }
}

pub fn canonical_pair(a: Option<EntityId>, b: Option<EntityId>) -> (r: Option<(EntityId, EntityId)>)
    ensures
        r == canonical_pair_of(a, b),
{
    match (a, b) {
        (Some(x), Some(y)) => if x.0 <= y.0 {
            Some((x, y))
        } else {
            Some((y, x))
        },
        _ => None,
    }
}

/// The first existing family from `i` on, not yet used, whose partners are
/// the pair `pair`.
pub open spec fn first_family_from(
    ef: Seq<Family>,
    used: Seq<EntityId>,
    pair: (EntityId, EntityId),
    i: int,
) -> Option<EntityId>
    decreases ef.len() - i,
{
    if i < 0 || i >= ef.len() {
        None
    } else if !used.contains(ef[i].id) && canonical_pair_of(ef[i].partner1_id, ef[i].partner2_id) == Some(pair) {
        Some(ef[i].id)
    } else {
        first_family_from(ef, used, pair, i + 1)
    }
}

/// The reference to an imported family.
pub open spec fn family_ref_view(f: Family) -> (RefKind, Option<Seq<char>>, Seq<char>) {
    (RefKind::Family, f.original_xref.deep_view(), family_label_text(f))
}

/// What becomes of one imported family, given the families already used.
pub open spec fn family_outcome(f: Family, ef: Seq<Family>, map: Seq<(EntityId, EntityId)>, used: Seq<EntityId>) -> Option<EntityId> {
    match canonical_pair_of(mapped_partner(map, f.partner1_id), mapped_partner(map, f.partner2_id)) {
        Some(pair) => first_family_from(ef, used, pair, 0),
        None => None,
    }
}

/// Matching imported families in order: the matched ones, the unmatched
/// ones, and the families used so far.
pub open spec fn family_matching(gf: Seq<Family>, ef: Seq<Family>, map: Seq<(EntityId, EntityId)>) -> (
    Seq<((RefKind, Option<Seq<char>>, Seq<char>), EntityId, MatchConfidence)>,
    Seq<(RefKind, Option<Seq<char>>, Seq<char>)>,
    Seq<EntityId>,
)
    decreases gf.len(),
{
    if gf.len() == 0 {
        (Seq::empty(), Seq::empty(), Seq::empty())
    } else {
        let (m, u, used) = family_matching(gf.drop_last(), ef, map);
        let f = gf.last();
        match family_outcome(f, ef, map, used) {
            Some(id) => (m.push((family_ref_view(f), id, MatchConfidence::High)), u, used.push(id)),
            None => (m, u.push(family_ref_view(f)), used),
        }
    }
}

fn family_outcome_of(
    f: &Family,
    ef: &[Family],
    map: &[(EntityId, EntityId)],
    used: &[EntityId],
) -> (r: Option<EntityId>)
    ensures
        r == family_outcome(*f, ef@, map@, used@),
{
    let a = match f.partner1_id {
        Some(k) => id_table_get(map, k),
        None => None,
    };
    let b = match f.partner2_id {
        Some(k) => id_table_get(map, k),
        None => None,
    };
    let pair = match canonical_pair(a, b) {
        Some(pair) => pair,
        None => {
            return None;
        },
    };
    let mut i: usize = 0;
    while i < ef.len()
        invariant
            i <= ef@.len(),
            first_family_from(ef@, used@, pair, 0) == first_family_from(ef@, used@, pair, i as int),
            canonical_pair_of(mapped_partner(map@, f.partner1_id), mapped_partner(map@, f.partner2_id)) == Some(
                pair,
            ),
        decreases ef@.len() - i,
    {
        let e = &ef[i];
        let same = match canonical_pair(e.partner1_id, e.partner2_id) {
            Some(q) => q.0 == pair.0 && q.1 == pair.1,
            None => false,
        };
        if same && !contains_id(used, e.id) {
            return Some(e.id);
        }
        i = i + 1;
    }
    None
}

/// Matches imported families to existing ones with high confidence: an
/// imported family whose two partners both matched existing persons (by
/// `person_match_map`) matches the first unused existing family with the
/// same two partners, in either order.
pub fn match_families(
    gedcom_families: &[Family],
    existing_families: &[Family],
    person_match_map: &[(EntityId, EntityId)],
) -> (r: MatchResult)
    ensures
        r@.0 == family_matching(gedcom_families@, existing_families@, person_match_map@).0,
        r@.1 == family_matching(gedcom_families@, existing_families@, person_match_map@).1,
{
    let mut matched: Vec<MatchedEntity> = Vec::new();
    let mut unmatched: Vec<GedcomRef> = Vec::new();
    let mut used: Vec<EntityId> = Vec::new();
    let mut i: usize = 0;
    while i < gedcom_families.len()
        invariant
            i <= gedcom_families@.len(),
            (matched_views(matched@), ref_views(unmatched@), used@) == family_matching(
                gedcom_families@.subrange(0, i as int),
                existing_families@,
                person_match_map@,
            ),
        decreases gedcom_families@.len() - i,
    {
        proof {
            assert(gedcom_families@.subrange(0, i + 1).drop_last() =~= gedcom_families@.subrange(0, i as int));
        }
        let f = &gedcom_families[i];
        let gedcom_ref = GedcomRef::Family { xref: copy_opt_text(&f.original_xref), label: family_label(f) };
        let ghost mv = matched@;
        let ghost uv = unmatched@;
        match family_outcome_of(f, existing_families, person_match_map, used.as_slice()) {
            Some(id) => {
                matched.push(MatchedEntity { gedcom_ref, entity_id: id, confidence: MatchConfidence::High });
                used.push(id);
                proof {
                    assert(matched_views(matched@) =~= matched_views(mv).push(matched@.last()@));
                }
            },
            None => {
                unmatched.push(gedcom_ref);
                proof {
                    assert(ref_views(unmatched@) =~= ref_views(uv).push(unmatched@.last()@));
                }
            },
        }
        i = i + 1;
    }
    proof {
        assert(gedcom_families@.subrange(0, i as int) =~= gedcom_families@);
    }
    MatchResult { matched, unmatched }
}

/// An optional text reduced for comparison.
pub open spec fn opt_normalized(a: Option<String>) -> Option<Seq<char>> {
    match a {
        Some(s) => Some(normalized_text(s@)),
        None => None,
    }
}

/// The first existing source from `i` on, not yet used, with the given
/// normalized title and author.
pub open spec fn first_source_from(
    es: Seq<Source>,
    used: Seq<EntityId>,
    title: Seq<char>,
    author: Option<Seq<char>>,
    i: int,
) -> Option<EntityId>
    decreases es.len() - i,
{
    if i < 0 || i >= es.len() {
        None
    } else if !used.contains(es[i].id) && normalized_text(es[i].title@) == title && opt_normalized(es[i].author)
        == author {
        Some(es[i].id)
    } else {
        first_source_from(es, used, title, author, i + 1)
    }
}

/// The reference to an imported source.
pub open spec fn source_ref_view(s: Source) -> (RefKind, Option<Seq<char>>, Seq<char>) {
    (RefKind::Source, s.original_xref.deep_view(), s.title@)
}

/// Matching imported sources in order: the matched ones, the unmatched
/// ones, and the sources used so far.
pub open spec fn source_matching(gs: Seq<Source>, es: Seq<Source>) -> (
    Seq<((RefKind, Option<Seq<char>>, Seq<char>), EntityId, MatchConfidence)>,
    Seq<(RefKind, Option<Seq<char>>, Seq<char>)>,
    Seq<EntityId>,
)
    decreases gs.len(),
{
    if gs.len() == 0 {
        (Seq::empty(), Seq::empty(), Seq::empty())
    } else {
        let (m, u, used) = source_matching(gs.drop_last(), es);
        let s = gs.last();
        match first_source_from(es, used, normalized_text(s.title@), opt_normalized(s.author), 0) {
            Some(id) => (m.push((source_ref_view(s), id, MatchConfidence::High)), u, used.push(id)),
            None => (m, u.push(source_ref_view(s)), used),
        }
    }
}

fn normalize_opt(a: &Option<String>) -> (r: Option<String>)
    ensures
        r.deep_view() == opt_normalized(*a),
{
    match a {
        Some(s) => Some(normalize_text(s.as_str())),
        None => None,
    }
}

fn opt_text_eq(a: &Option<String>, b: &Option<String>) -> (r: bool)
    ensures
        r == (a.deep_view() == b.deep_view()),
{
    match (a, b) {
        (Some(x), Some(y)) => str_eq(x.as_str(), y.as_str()),
        (None, None) => true,
        _ => false,
    }
}

fn source_outcome_of(title: &str, author: &Option<String>, es: &[Source], used: &[EntityId]) -> (r: Option<EntityId>)
    ensures
        r == first_source_from(es@, used@, title@, author.deep_view(), 0),
{
    let mut i: usize = 0;
    while i < es.len()
        invariant
            i <= es@.len(),
            first_source_from(es@, used@, title@, author.deep_view(), 0) == first_source_from(
                es@,
                used@,
                title@,
                author.deep_view(),
                i as int,
            ),
        decreases es@.len() - i,
    {
        let e = &es[i];
        if !contains_id(used, e.id) {
            let t = normalize_text(e.title.as_str());
            let a = normalize_opt(&e.author);
            if str_eq(t.as_str(), title) && opt_text_eq(&a, author) {
                return Some(e.id);
            }
        }
        i = i + 1;
    }
    None
}

/// Matches imported sources to existing ones with high confidence: the first
/// unused existing source with the same normalized title and author.
pub fn match_sources(gedcom_sources: &[Source], existing_sources: &[Source]) -> (r: MatchResult)
    ensures
        r@.0 == source_matching(gedcom_sources@, existing_sources@).0,
        r@.1 == source_matching(gedcom_sources@, existing_sources@).1,
{
    let mut matched: Vec<MatchedEntity> = Vec::new();
    let mut unmatched: Vec<GedcomRef> = Vec::new();
    let mut used: Vec<EntityId> = Vec::new();
    let mut i: usize = 0;
    while i < gedcom_sources.len()
        invariant
            i <= gedcom_sources@.len(),
            (matched_views(matched@), ref_views(unmatched@), used@) == source_matching(
                gedcom_sources@.subrange(0, i as int),
                existing_sources@,
            ),
        decreases gedcom_sources@.len() - i,
    {
        proof {
            assert(gedcom_sources@.subrange(0, i + 1).drop_last() =~= gedcom_sources@.subrange(0, i as int));
        }
        let s = &gedcom_sources[i];
        let gedcom_ref = GedcomRef::Source { xref: copy_opt_text(&s.original_xref), label: s.title.clone() };
        let title = normalize_text(s.title.as_str());
        let author = normalize_opt(&s.author);
        let ghost mv = matched@;
        let ghost uv = unmatched@;
        match source_outcome_of(title.as_str(), &author, existing_sources, used.as_slice()) {
            Some(id) => {
                matched.push(MatchedEntity { gedcom_ref, entity_id: id, confidence: MatchConfidence::High });
                used.push(id);
                proof {
                    assert(matched_views(matched@) =~= matched_views(mv).push(matched@.last()@));
                }
            },
            None => {
                unmatched.push(gedcom_ref);
                proof {
                    assert(ref_views(unmatched@) =~= ref_views(uv).push(unmatched@.last()@));
                }
            },
        }
        i = i + 1;
    }
    proof {
        assert(gedcom_sources@.subrange(0, i as int) =~= gedcom_sources@);
    }
    MatchResult { matched, unmatched }
}


/// Each imported person ends up either matched or unmatched, exactly once.
pub proof fn law_person_matching_partition(
    gp: Seq<Person>,
    ge: Seq<Event>,
    ep: Seq<Person>,
    ee: Seq<Event>,
    prior: Seq<(Seq<char>, EntityId)>,
)
    ensures
        person_matching(gp, ge, ep, ee, prior).0.len() + person_matching(gp, ge, ep, ee, prior).1.len() == gp.len(),
    decreases gp.len(),
{
    if gp.len() > 0 {
        law_person_matching_partition(gp.drop_last(), ge, ep, ee, prior);
    }
}

/// Whether a person's xref is recorded in an earlier import's table.
pub open spec fn xref_known(p: Person, prior: Seq<(Seq<char>, EntityId)>) -> bool {
    match p.original_xref.deep_view() {
        Some(x) => lookup_last(prior, x) is Some,
        None => false,
    }
}

/// Imported persons whose xrefs all appear in the earlier import's table are
/// all matched, in order, with exact confidence, each to the entity recorded
/// for its xref.
pub proof fn law_known_xrefs_match_exactly(
    gp: Seq<Person>,
    ge: Seq<Event>,
    ep: Seq<Person>,
    ee: Seq<Event>,
    prior: Seq<(Seq<char>, EntityId)>,
)
    requires
        forall|k: int| 0 <= k < gp.len() ==> #[trigger] xref_known(gp[k], prior),
    ensures
        person_matching(gp, ge, ep, ee, prior).1.len() == 0,
        person_matching(gp, ge, ep, ee, prior).0.len() == gp.len(),
        forall|k: int|
            0 <= k < gp.len() ==> (#[trigger] person_matching(gp, ge, ep, ee, prior).0[k]).2 == MatchConfidence::Exact
                && person_matching(gp, ge, ep, ee, prior).0[k].1 == lookup_last(
                prior,
                gp[k].original_xref.deep_view().unwrap(),
            ).unwrap(),
    decreases gp.len(),
{
    if gp.len() > 0 {
        let init = gp.drop_last();
        assert forall|k: int| 0 <= k < init.len() implies #[trigger] xref_known(init[k], prior) by {
            assert(init[k] == gp[k]);
        }
        law_known_xrefs_match_exactly(init, ge, ep, ee, prior);
        let last = gp.len() - 1;
        assert(xref_known(gp[last], prior));
        let r = person_matching(gp, ge, ep, ee, prior);
        let q = person_matching(init, ge, ep, ee, prior);
        assert forall|k: int|
            0 <= k < gp.len() implies (#[trigger] r.0[k]).2 == MatchConfidence::Exact && r.0[k].1 == lookup_last(
                prior,
                gp[k].original_xref.deep_view().unwrap(),
            ).unwrap() by {
            if k < last {
                assert(r.0[k] == q.0[k]);
                assert(init[k] == gp[k]);
            }
        }
    }
}

/// Each imported family ends up either matched or unmatched, exactly once.
pub proof fn law_family_matching_partition(gf: Seq<Family>, ef: Seq<Family>, map: Seq<(EntityId, EntityId)>)
    ensures
        family_matching(gf, ef, map).0.len() + family_matching(gf, ef, map).1.len() == gf.len(),
    decreases gf.len(),
{
    if gf.len() > 0 {
        law_family_matching_partition(gf.drop_last(), ef, map);
    }
}

proof fn lemma_first_family_unused(ef: Seq<Family>, used: Seq<EntityId>, pair: (EntityId, EntityId), i: int)
    ensures
        first_family_from(ef, used, pair, i) matches Some(id) ==> !used.contains(id),
    decreases ef.len() - i,
{
    if 0 <= i < ef.len() {
        lemma_first_family_unused(ef, used, pair, i + 1);
    }
}

proof fn lemma_family_matching_used(gf: Seq<Family>, ef: Seq<Family>, map: Seq<(EntityId, EntityId)>)
    ensures
        family_matching(gf, ef, map).2 == family_matching(gf, ef, map).0.map_values(
            |m: ((RefKind, Option<Seq<char>>, Seq<char>), EntityId, MatchConfidence)| m.1,
        ),
        forall|i: int, j: int|
            0 <= i < j < family_matching(gf, ef, map).2.len() ==> family_matching(gf, ef, map).2[i]
                != family_matching(gf, ef, map).2[j],
    decreases gf.len(),
{
    if gf.len() > 0 {
        lemma_family_matching_used(gf.drop_last(), ef, map);
        let (m, u, used) = family_matching(gf.drop_last(), ef, map);
        let f = gf.last();
        match canonical_pair_of(mapped_partner(map, f.partner1_id), mapped_partner(map, f.partner2_id)) {
            Some(pair) => lemma_first_family_unused(ef, used, pair, 0),
            None => {},
        }
        let r = family_matching(gf, ef, map);
        assert(r.2 =~= r.0.map_values(|m: ((RefKind, Option<Seq<char>>, Seq<char>), EntityId, MatchConfidence)| m.1));
        assert forall|i: int, j: int| 0 <= i < j < r.2.len() implies r.2[i] != r.2[j] by {
            if j == used.len() && r.2.len() > used.len() {
                assert(r.2 == used.push(r.2[j]));
                assert(r.2[i] == used[i]);
                assert(used.contains(used[i]));
                assert(!used.contains(r.2[j]));
            } else {
                assert(r.2[i] == used[i] && r.2[j] == used[j]);
            }
        }
    }
}

/// No existing family is matched twice.
pub proof fn law_family_matches_distinct(gf: Seq<Family>, ef: Seq<Family>, map: Seq<(EntityId, EntityId)>)
    ensures
        forall|i: int, j: int|
            0 <= i < j < family_matching(gf, ef, map).0.len() ==> (#[trigger] family_matching(gf, ef, map).0[i]).1
                != (#[trigger] family_matching(gf, ef, map).0[j]).1,
{
    lemma_family_matching_used(gf, ef, map);
    let r = family_matching(gf, ef, map);
    assert forall|i: int, j: int| 0 <= i < j < r.0.len() implies (#[trigger] r.0[i]).1 != (#[trigger] r.0[j]).1 by {
        assert(r.2[i] == r.0[i].1 && r.2[j] == r.0[j].1);
    }
}

/// Each imported source ends up either matched or unmatched, exactly once.
pub proof fn law_source_matching_partition(gs: Seq<Source>, es: Seq<Source>)
    ensures
        source_matching(gs, es).0.len() + source_matching(gs, es).1.len() == gs.len(),
    decreases gs.len(),
{
    if gs.len() > 0 {
        law_source_matching_partition(gs.drop_last(), es);
    }
}

proof fn lemma_first_source_unused(
    es: Seq<Source>,
    used: Seq<EntityId>,
    title: Seq<char>,
    author: Option<Seq<char>>,
    i: int,
)
    ensures
        first_source_from(es, used, title, author, i) matches Some(id) ==> !used.contains(id),
    decreases es.len() - i,
{
    if 0 <= i < es.len() {
        lemma_first_source_unused(es, used, title, author, i + 1);
    }
}

proof fn lemma_source_matching_used(gs: Seq<Source>, es: Seq<Source>)
    ensures
        source_matching(gs, es).2 == source_matching(gs, es).0.map_values(
            |m: ((RefKind, Option<Seq<char>>, Seq<char>), EntityId, MatchConfidence)| m.1,
        ),
        forall|i: int, j: int|
            0 <= i < j < source_matching(gs, es).2.len() ==> source_matching(gs, es).2[i] != source_matching(
                gs,
                es,
            ).2[j],
    decreases gs.len(),
{
    if gs.len() > 0 {
        lemma_source_matching_used(gs.drop_last(), es);
        let (m, u, used) = source_matching(gs.drop_last(), es);
        let s = gs.last();
        lemma_first_source_unused(es, used, normalized_text(s.title@), opt_normalized(s.author), 0);
        let r = source_matching(gs, es);
        assert(r.2 =~= r.0.map_values(|m: ((RefKind, Option<Seq<char>>, Seq<char>), EntityId, MatchConfidence)| m.1));
        assert forall|i: int, j: int| 0 <= i < j < r.2.len() implies r.2[i] != r.2[j] by {
            if j == used.len() && r.2.len() > used.len() {
                assert(r.2 == used.push(r.2[j]));
                assert(r.2[i] == used[i]);
                assert(used.contains(used[i]));
                assert(!used.contains(r.2[j]));
            } else {
                assert(r.2[i] == used[i] && r.2[j] == used[j]);
            }
        }
    }
}

/// No existing source is matched twice.
pub proof fn law_source_matches_distinct(gs: Seq<Source>, es: Seq<Source>)
    ensures
        forall|i: int, j: int|
            0 <= i < j < source_matching(gs, es).0.len() ==> (#[trigger] source_matching(gs, es).0[i]).1
                != (#[trigger] source_matching(gs, es).0[j]).1,
{
    lemma_source_matching_used(gs, es);
    let r = source_matching(gs, es);
    assert forall|i: int, j: int| 0 <= i < j < r.0.len() implies (#[trigger] r.0[i]).1 != (#[trigger] r.0[j]).1 by {
        assert(r.2[i] == r.0[i].1 && r.2[j] == r.0[j].1);
    }
}

} // verus!
