//! Writing GEDCOM and reading it back: the text that `render_lines` gives
//! for well-formed lines tokenizes to those same lines, a written forest
//! builds back into the same forest, and a vendor subtree kept as text reads
//! back as the same subtree.
use crate::gedcom::serialize::{
    head_lines, trailer_line, byte_chunks, continuation_prefix, fit_count, limit_after, line_prefix, next_level, piece_line, piece_lines,
    piece_lines_spaced, render_line, render_lines, segment_lines, segment_text, segments, split_by_bytes,
    value_lines,
};
use crate::gedcom::custom::{head_text, subtree_text};
use crate::gedcom::export::{deserialized, forest_of, lowered, min_level, raise_views, sat_add};
use crate::gedcom::tree::{
    flatten, flatten_views, law_forest_lines_round_trip, lemma_flatten_steps, lemma_forest_unique, lemma_levels_bound,
    lemma_views_of, levels_ok, levels_ok_views, bad_line, view_head, view_of, views_of, well_nested, GedcomNode, NodeView,
};
use crate::gedcom::tokenizer::{
    continued_value, fold_tokens, normalize_newlines, parse_physical, physical_lines, split_lines, strip_bom,
    tag_value, token_step, tokenize_spec, LineView,
};
use crate::text::{
    byte_len, decimal, decimal_digit, digit_part, digits_value, index_of_first, is_digit, is_ws,
    lemma_index_of_first, newline_pred, parse_u8_spec, trim_start, utf8_len, ws_pred,
};
use vstd::prelude::*;

verus! {

/// No character of `s` is a newline.
pub open spec fn no_newline(s: Seq<char>) -> bool {
    forall|i: int| 0 <= i < s.len() ==> s[i] != '\n'
}

/// No character of `s` is whitespace.
pub open spec fn no_ws(s: Seq<char>) -> bool {
    forall|i: int| 0 <= i < s.len() ==> !is_ws(#[trigger] s[i])
}

proof fn lemma_decimal_digit(k: int)
    requires
        0 <= k < 10,
    ensures
        is_digit(decimal_digit(k)),
        decimal_digit(k) as int - '0' as int == k,
{
    let t = seq!['0', '1', '2', '3', '4', '5', '6', '7', '8', '9'];
    assert(decimal_digit(k) == t[k]);
    if k == 0 {
        assert(t[0] == '0');
    } else if k == 1 {
        assert(t[1] == '1');
    } else if k == 2 {
        assert(t[2] == '2');
    } else if k == 3 {
        assert(t[3] == '3');
    } else if k == 4 {
        assert(t[4] == '4');
    } else if k == 5 {
        assert(t[5] == '5');
    } else if k == 6 {
        assert(t[6] == '6');
    } else if k == 7 {
        assert(t[7] == '7');
    } else if k == 8 {
        assert(t[8] == '8');
    } else {
        assert(t[9] == '9');
    }
}

/// The decimal text of `n` is a non-empty run of digits whose value is `n`.
proof fn lemma_decimal(n: nat)
    ensures
        decimal(n).len() >= 1,
        forall|i: int| 0 <= i < decimal(n).len() ==> is_digit(#[trigger] decimal(n)[i]),
        digits_value(decimal(n)) == n,
        n < 10 ==> decimal(n).len() == 1,
        n < 100 ==> decimal(n).len() <= 2,
        n < 1000 ==> decimal(n).len() <= 3,
    decreases n,
{
    if n < 10 {
        lemma_decimal_digit(n as int);
        let d = decimal(n);
        assert(d.drop_last().len() == 0);
        assert(digits_value(d.drop_last()) == 0);
    } else {
        lemma_decimal(n / 10);
        lemma_decimal_digit((n % 10) as int);
        let d = decimal(n);
        let p = decimal(n / 10);
        assert(d == p.push(decimal_digit((n % 10) as int)));
        assert(d.drop_last() =~= p);
        assert forall|i: int| 0 <= i < d.len() implies is_digit(#[trigger] d[i]) by {
            if i < p.len() {
                assert(d[i] == p[i]);
            }
        }
        assert(digits_value(d) == digits_value(p) * 10 + (n % 10));
    }
}

/// Digits are neither whitespace nor `@`.
proof fn lemma_digit_not_ws(c: char)
    requires
        is_digit(c),
    ensures
        !is_ws(c),
        c != '@',
        c != '\u{feff}',
        utf8_len(c) == 1,
{
}

/// `str::parse::<u8>` reads back the decimal text of a byte value.
proof fn lemma_parse_decimal(n: u8)
    ensures
        parse_u8_spec(decimal(n as nat)) == Some(n),
{
    lemma_decimal(n as nat);
    let d = decimal(n as nat);
    lemma_digit_not_ws(d[0]);
    assert(digit_part(d) == d);
}

/// Byte length adds up over concatenation.
proof fn lemma_byte_len_append(a: Seq<char>, b: Seq<char>)
    ensures
        byte_len(a + b) == byte_len(a) + byte_len(b),
    decreases b.len(),
{
    if b.len() > 0 {
        assert((a + b).drop_last() =~= a + b.drop_last());
        lemma_byte_len_append(a, b.drop_last());
    } else {
        assert(a + b =~= a);
    }
}

/// A text whose first character is not whitespace is its own `trim_start`.
proof fn lemma_trim_start_none(s: Seq<char>)
    requires
        s.len() > 0,
        !is_ws(s[0]),
    ensures
        trim_start(s) == s,
{
}

/// One leading space is trimmed, and no more when the rest starts with a
/// non-whitespace character.
proof fn lemma_trim_start_space(t: Seq<char>)
    requires
        t.len() > 0,
        !is_ws(t[0]),
    ensures
        trim_start(seq![' '] + t) == t,
{
    let s = seq![' '] + t;
    assert((' ' as u32) == 0x20);
    assert(s[0] == ' ');
    assert(is_ws(s[0]));
    assert(s.drop_first() =~= t);
    lemma_trim_start_none(t);
    assert(trim_start(s) == trim_start(s.drop_first()));
}

/// The first whitespace of `w + rest`, for a whitespace-free `w` followed by
/// nothing or by a whitespace character, is at `w.len()`.
proof fn lemma_first_ws_after(w: Seq<char>, rest: Seq<char>)
    requires
        no_ws(w),
        rest.len() > 0 ==> is_ws(rest[0]),
    ensures
        index_of_first(w + rest, ws_pred()) == w.len(),
{
    let s = w + rest;
    assert forall|j: int| 0 <= j < w.len() implies !(ws_pred())(s[j]) by {
        assert(s[j] == w[j]);
    }
    if w.len() < s.len() {
        assert(s[w.len() as int] == rest[0]);
    }
    lemma_index_of_first(s, ws_pred(), w.len() as int);
}


/// A tag that reads back: non-empty, without whitespace, not starting with `@`.
pub open spec fn tag_ok(tag: Seq<char>) -> bool {
    tag.len() > 0 && no_ws(tag) && tag[0] != '@'
}

/// A cross-reference that reads back: without whitespace, between `@` signs.
pub open spec fn xref_ok(x: Seq<char>) -> bool {
    x.len() > 0 && no_ws(x) && x[0] == '@' && x.last() == '@'
}

/// The value part of a physical line: a space and the value, or nothing.
pub open spec fn value_part(value: Option<Seq<char>>) -> Seq<char> {
    match value {
        Some(v) => seq![' '] + v,
        None => Seq::empty(),
    }
}

/// The text of one physical line (without its newline).
pub open spec fn line_text(level: u8, xref: Option<Seq<char>>, tag: Seq<char>, value: Option<Seq<char>>) -> Seq<char> {
    line_prefix((level, xref, tag, value)) + value_part(value)
}

proof fn lemma_tag_value(tag: Seq<char>, value: Option<Seq<char>>)
    requires
        no_ws(tag),
    ensures
        tag_value(tag + value_part(value)) == (tag, value),
{
    let s = tag + value_part(value);
    assert((' ' as u32) == 0x20);
    if let Some(v) = value {
        assert(value_part(value)[0] == ' ');
    }
    lemma_first_ws_after(tag, value_part(value));
    match value {
        Some(v) => {
            assert(s.subrange(0, tag.len() as int) =~= tag);
            assert(s.subrange(tag.len() + 1int, s.len() as int) =~= v);
        },
        None => {
            assert(s =~= tag);
        },
    }
}

/// A physical line written from a level, an xref, a tag and a value parses
/// back to them.
pub proof fn lemma_parse_line(level: u8, xref: Option<Seq<char>>, tag: Seq<char>, value: Option<Seq<char>>)
    requires
        tag_ok(tag),
        xref matches Some(x) ==> xref_ok(x),
    ensures
        parse_physical(line_text(level, xref, tag, value)) == Ok::<LineView, Seq<char>>((level, xref, tag, value)),
{
    let d = decimal(level as nat);
    lemma_decimal(level as nat);
    let xp = match xref {
        Some(x) => seq![' '] + x,
        None => Seq::<char>::empty(),
    };
    let tv = tag + value_part(value);
    let raw = line_text(level, xref, tag, value);
    assert(raw =~= d + (xp + seq![' '] + tv));
    assert((' ' as u32) == 0x20);
    lemma_digit_not_ws(d[0]);
    assert(raw[0] == d[0]);
    lemma_trim_start_none(raw);
    assert(no_ws(d)) by {
        assert forall|i: int| 0 <= i < d.len() implies !is_ws(#[trigger] d[i]) by {
            lemma_digit_not_ws(d[i]);
        }
    }
    let rest = xp + seq![' '] + tv;
    assert(rest[0] == ' ');
    lemma_first_ws_after(d, rest);
    let fs = d.len() as int;
    assert(raw.subrange(0, fs) =~= d);
    lemma_parse_decimal(level);
    assert(tag[0] != '@' && !is_ws(tag[0]));
    assert(tv[0] == tag[0]);
    match xref {
        Some(x) => {
            let r1 = x + seq![' '] + tv;
            assert(raw.subrange(fs, raw.len() as int) =~= seq![' '] + r1);
            assert(r1[0] == x[0]);
            assert(!is_ws(x[0]));
            lemma_trim_start_space(r1);
            let rem = r1;
            assert((seq![' '] + tv)[0] == ' ');
            assert(r1 =~= x + (seq![' '] + tv));
            lemma_first_ws_after(x, seq![' '] + tv);
            let xe = x.len() as int;
            assert(rem.subrange(0, xe) =~= x);
            assert(rem.subrange(xe, rem.len() as int) =~= seq![' '] + tv);
            lemma_trim_start_space(tv);
            lemma_tag_value(tag, value);
            let trimmed = trim_start(raw);
            assert(trimmed == raw);
            assert(index_of_first(trimmed, ws_pred()) == fs);
            assert(fs < trimmed.len());
            assert(parse_u8_spec(trimmed.subrange(0, fs)) == Some(level));
            let rem2 = trim_start(trimmed.subrange(fs, trimmed.len() as int));
            assert(rem2 == rem);
            assert(rem2.len() > 0 && rem2[0] == '@');
            assert(index_of_first(rem2, ws_pred()) == xe);
            assert(xe < rem2.len());
            let token = rem2.subrange(0, xe);
            assert(token == x);
            assert(token.len() != 0 && token.last() == '@');
            let after = trim_start(rem2.subrange(xe, rem2.len() as int));
            assert(after == tv);
            assert(after.len() != 0);
            assert(tag_value(after) == (tag, value));
        },
        None => {
            assert(raw.subrange(fs, raw.len() as int) =~= seq![' '] + tv);
            lemma_trim_start_space(tv);
            lemma_tag_value(tag, value);
        },
    }
}


/// Tokenizing steps over physical lines when every step succeeds; line
/// numbers only matter for errors.
pub open spec fn steps(acc: Seq<LineView>, ps: Seq<Seq<char>>) -> Option<Seq<LineView>>
    decreases ps.len(),
{
    if ps.len() == 0 {
        Some(acc)
    } else {
        match steps(acc, ps.drop_last()) {
            None => None,
            Some(a) => match token_step(a, ps.last(), 0) {
                Ok(b) => Some(b),
                Err(_) => None,
            },
        }
    }
}

proof fn lemma_token_step_number(acc: Seq<LineView>, raw: Seq<char>, n: int)
    ensures
        token_step(acc, raw, 0) matches Ok(b) ==> token_step(acc, raw, n) == Ok::<Seq<LineView>, (int, Seq<char>)>(b),
{
}

proof fn lemma_steps_fold(ps: Seq<Seq<char>>, n: nat)
    requires
        n <= ps.len(),
        steps(Seq::empty(), ps.subrange(0, n as int)) is Some,
    ensures
        fold_tokens(ps, n) == Ok::<Seq<LineView>, (int, Seq<char>)>(steps(Seq::empty(), ps.subrange(0, n as int)).unwrap()),
    decreases n,
{
    if n > 0 {
        let pre = ps.subrange(0, n as int);
        assert(pre.drop_last() =~= ps.subrange(0, n - 1));
        assert(pre.last() == ps[n - 1]);
        lemma_steps_fold(ps, (n - 1) as nat);
        let a = steps(Seq::empty(), ps.subrange(0, n - 1)).unwrap();
        lemma_token_step_number(a, ps[n - 1], n as int);
    }
}

proof fn lemma_steps_append(acc: Seq<LineView>, a: Seq<Seq<char>>, b: Seq<Seq<char>>)
    ensures
        steps(acc, a + b) == match steps(acc, a) {
            None => None,
            Some(x) => steps(x, b),
        },
    decreases b.len(),
{
    if b.len() == 0 {
        assert(a + b =~= a);
    } else {
        assert((a + b).drop_last() =~= a + b.drop_last());
        assert((a + b).last() == b.last());
        lemma_steps_append(acc, a, b.drop_last());
    }
}

proof fn lemma_steps_one(acc: Seq<LineView>, p: Seq<char>)
    ensures
        steps(acc, seq![p]) == match token_step(acc, p, 0) {
            Ok(b) => Some(b),
            Err(_) => None::<Seq<LineView>>,
        },
{
    assert(seq![p].drop_last() =~= Seq::<Seq<char>>::empty());
    assert(steps(acc, Seq::<Seq<char>>::empty()) == Some(acc));
    assert(seq![p].last() == p);
}

proof fn lemma_conc_cont_tags()
    ensures
        tag_ok("CONC"@),
        tag_ok("CONT"@),
        "CONC"@ != "CONT"@,
        "CONC"@.len() == 4,
        "CONT"@.len() == 4,
{
    reveal_strlit("CONC");
    reveal_strlit("CONT");
    assert("CONC"@[3] != "CONT"@[3]);
}

/// A physical line that is not a continuation is appended.
proof fn lemma_step_line(acc: Seq<LineView>, level: u8, xref: Option<Seq<char>>, tag: Seq<char>, value: Option<Seq<char>>)
    requires
        tag_ok(tag),
        xref matches Some(x) ==> xref_ok(x),
        tag != "CONC"@,
        tag != "CONT"@,
    ensures
        token_step(acc, line_text(level, xref, tag, value), 0) == Ok::<Seq<LineView>, (int, Seq<char>)>(
            acc.push((level, xref, tag, value)),
        ),
{
    lemma_parse_line(level, xref, tag, value);
    let raw = line_text(level, xref, tag, value);
    lemma_decimal(level as nat);
    lemma_digit_not_ws(decimal(level as nat)[0]);
    assert(raw[0] == decimal(level as nat)[0]);
    lemma_trim_start_none(raw);
}

/// A continuation line folds into the last logical line.
proof fn lemma_step_continuation(acc: Seq<LineView>, level: u8, cont: bool, value: Option<Seq<char>>)
    requires
        acc.len() > 0,
    ensures
        token_step(acc, line_text(level, None, if cont { "CONT"@ } else { "CONC"@ }, value), 0) == Ok::<
            Seq<LineView>,
            (int, Seq<char>),
        >(
            acc.update(
                acc.len() - 1,
                (acc.last().0, acc.last().1, acc.last().2, Some(continued_value(acc.last().3, cont, value))),
            ),
        ),
{
    lemma_conc_cont_tags();
    let tag = if cont { "CONT"@ } else { "CONC"@ };
    lemma_parse_line(level, None, tag, value);
    let raw = line_text(level, None, tag, value);
    lemma_decimal(level as nat);
    lemma_digit_not_ws(decimal(level as nat)[0]);
    assert(raw[0] == decimal(level as nat)[0]);
    lemma_trim_start_none(raw);
}


/// Neither a newline nor a carriage return occurs in `s`.
pub open spec fn no_line_break(s: Seq<char>) -> bool {
    forall|i: int| 0 <= i < s.len() ==> #[trigger] s[i] != '\n' && s[i] != '\r'
}

/// The pieces joined.
pub open spec fn flat(ps: Seq<Seq<char>>) -> Seq<char>
    decreases ps.len(),
{
    if ps.len() == 0 {
        Seq::empty()
    } else {
        flat(ps.drop_last()) + ps.last()
    }
}

proof fn lemma_flat_prepend(a: Seq<char>, rest: Seq<Seq<char>>)
    ensures
        flat(seq![a] + rest) == a + flat(rest),
    decreases rest.len(),
{
    if rest.len() == 0 {
        assert(seq![a] + rest =~= seq![a]);
        assert(seq![a].drop_last() =~= Seq::<Seq<char>>::empty());
        assert(flat(Seq::<Seq<char>>::empty()) == Seq::<char>::empty());
        assert(flat(seq![a]) == flat(seq![a].drop_last()) + seq![a].last());
        assert(Seq::<char>::empty() + a =~= a);
        assert(a + Seq::<char>::empty() =~= a);
    } else {
        assert((seq![a] + rest).drop_last() =~= seq![a] + rest.drop_last());
        assert((seq![a] + rest).last() == rest.last());
        lemma_flat_prepend(a, rest.drop_last());
        assert(a + flat(rest.drop_last()) + rest.last() =~= a + (flat(rest.drop_last()) + rest.last()));
    }
}

proof fn lemma_fit_count_bound(s: Seq<char>, budget: int)
    ensures
        fit_count(s, budget) <= s.len(),
        s.len() > 0 && utf8_len(s[0]) <= budget ==> fit_count(s, budget) >= 1,
    decreases s.len(),
{
    if s.len() > 0 {
        lemma_fit_count_bound(s.drop_first(), budget - utf8_len(s[0]));
    }
}

/// Every character of `s` takes at most `max` bytes.
pub open spec fn all_fit(s: Seq<char>, max: int) -> bool {
    forall|i: int| 0 <= i < s.len() ==> utf8_len(#[trigger] s[i]) <= max
}

proof fn lemma_all_fit_four(s: Seq<char>, max: int)
    requires
        max >= 4,
    ensures
        all_fit(s, max),
{
}

/// Greedy chunks of a text put back together give the text, when every
/// character fits.
proof fn lemma_byte_chunks(s: Seq<char>, max: int)
    requires
        all_fit(s, max),
    ensures
        flat(byte_chunks(s, max)) == s,
        s.len() > 0 ==> byte_chunks(s, max).len() >= 1,
        no_line_break(s) ==> forall|i: int|
            0 <= i < byte_chunks(s, max).len() ==> no_line_break(#[trigger] byte_chunks(s, max)[i]),
    decreases s.len(),
{
    if s.len() > 0 {
        let k = fit_count(s, max);
        lemma_fit_count_bound(s, max);
        let head = s.subrange(0, k as int);
        let tail = s.subrange(k as int, s.len() as int);
        assert(all_fit(tail, max)) by {
            assert forall|i: int| 0 <= i < tail.len() implies utf8_len(#[trigger] tail[i]) <= max by {
                assert(tail[i] == s[k + i]);
            }
        }
        lemma_byte_chunks(tail, max);
        let c = byte_chunks(s, max);
        assert(c == seq![head] + byte_chunks(tail, max));
        lemma_flat_prepend(head, byte_chunks(tail, max));
        assert(head + tail =~= s);
        if no_line_break(s) {
            assert(no_line_break(head));
            assert(no_line_break(tail));
            assert forall|i: int| 0 <= i < c.len() implies no_line_break(#[trigger] c[i]) by {
                if i > 0 {
                    assert(c[i] == byte_chunks(tail, max)[i - 1]);
                }
            }
        }
    } else {
        assert(byte_chunks(s, max) =~= Seq::<Seq<char>>::empty());
    }
}

/// Splitting by bytes keeps every character when every character fits.
proof fn lemma_split_by_bytes(s: Seq<char>, max: int)
    requires
        max >= 1,
        all_fit(s, max),
    ensures
        split_by_bytes(s, max).len() >= 1,
        flat(split_by_bytes(s, max)) == s,
        no_line_break(s) ==> forall|i: int|
            0 <= i < split_by_bytes(s, max).len() ==> no_line_break(#[trigger] split_by_bytes(s, max)[i]),
{
    lemma_byte_chunks(s, max);
    if s.len() == 0 {
        assert(seq![s].drop_last() =~= Seq::<Seq<char>>::empty());
        assert(Seq::<char>::empty() + s =~= s);
    }
}

/// The segments after the first, each after a newline.
pub open spec fn tail_join(segs: Seq<Seq<char>>) -> Seq<char>
    decreases segs.len(),
{
    if segs.len() == 0 {
        Seq::empty()
    } else {
        seq!['\n'] + segs[0] + tail_join(segs.drop_first())
    }
}

/// The segments of a text, joined by newlines, give the text back.
proof fn lemma_segments(v: Seq<char>)
    ensures
        segments(v).len() >= 1,
        segments(v)[0] + tail_join(segments(v).drop_first()) == v,
        forall|i: int| 0 <= i < segments(v).len() ==> no_newline(#[trigger] segments(v)[i]),
        (forall|i: int| 0 <= i < v.len() ==> v[i] != '\r') ==> forall|i: int|
            0 <= i < segments(v).len() ==> no_line_break(#[trigger] segments(v)[i]),
    decreases v.len(),
{
    let k = index_of_first(v, newline_pred());
    crate::text::lemma_index_of_first_bounds(v, newline_pred());
    let sg = segments(v);
    if k >= v.len() || k < 0 {
        assert(sg == seq![v]);
        assert(sg.drop_first() =~= Seq::<Seq<char>>::empty());
        assert(v + Seq::<char>::empty() =~= v);
        assert forall|i: int| 0 <= i < v.len() implies v[i] != '\n' by {
            assert(!(newline_pred())(v[i]));
        }
    } else {
        let head = v.subrange(0, k);
        let rest = v.subrange(k + 1, v.len() as int);
        lemma_segments(rest);
        assert(sg == seq![head] + segments(rest));
        assert(sg.drop_first() =~= segments(rest));
        let sr = segments(rest);
        assert(sr =~= seq![sr[0]] + sr.drop_first());
        assert(tail_join(sr) == seq!['\n'] + sr[0] + tail_join(sr.drop_first()));
        assert(v[k] == '\n');
        assert(sr[0] + tail_join(sr.drop_first()) == rest);
        assert(seq!['\n'] + sr[0] + tail_join(sr.drop_first()) =~= seq!['\n'] + rest);
        assert(head + (seq!['\n'] + rest) =~= v);
        assert forall|i: int| 0 <= i < head.len() implies head[i] != '\n' by {
            assert(!(newline_pred())(v[i]));
        }
        assert forall|i: int| 0 <= i < sg.len() implies no_newline(#[trigger] sg[i]) by {
            if i > 0 {
                assert(sg[i] == sr[i - 1]);
            }
        }
        if forall|i: int| 0 <= i < v.len() ==> v[i] != '\r' {
            assert forall|i: int| 0 <= i < rest.len() implies rest[i] != '\r' by {
                assert(rest[i] == v[k + 1 + i]);
            }
            assert forall|i: int| 0 <= i < sg.len() implies no_line_break(#[trigger] sg[i]) by {
                if i > 0 {
                    assert(sg[i] == sr[i - 1]);
                } else {
                    assert forall|j: int| 0 <= j < head.len() implies #[trigger] head[j] != '\n' && head[j]
                        != '\r' by {
                        assert(head[j] == v[j]);
                    }
                }
            }
        }
    }
}

proof fn lemma_byte_len_bound(s: Seq<char>)
    ensures
        byte_len(s) <= 4 * s.len(),
    decreases s.len(),
{
    if s.len() > 0 {
        lemma_byte_len_bound(s.drop_last());
    }
}

/// The continuation prefixes leave room for any character, and `CONT` and
/// `CONC` lines have the same room.
proof fn lemma_continuation_limits(level: u8)
    ensures
        limit_after(byte_len(continuation_prefix(level, "CONT"@)) + 1int) >= 4,
        limit_after(byte_len(continuation_prefix(level, "CONT"@)) + 1int) == limit_after(
            byte_len(continuation_prefix(level, "CONC"@)) + 1int,
        ),
{
    lemma_conc_cont_tags();
    let d = decimal(next_level(level) as nat) + seq![' '];
    lemma_decimal(next_level(level) as nat);
    assert(continuation_prefix(level, "CONT"@) =~= d + "CONT"@);
    assert(continuation_prefix(level, "CONC"@) =~= d + "CONC"@);
    lemma_byte_len_append(d, "CONT"@);
    lemma_byte_len_append(d, "CONC"@);
    reveal_strlit("CONT");
    reveal_strlit("CONC");
    assert(byte_len("CONT"@) == byte_len("CONC"@)) by {
        reveal_with_fuel(byte_len, 5);
    }
    lemma_byte_len_bound(d + "CONT"@);
}


/// The level of continuation lines under a line at `level`.
pub open spec fn cont_level(level: u8) -> u8 {
    next_level(level) as u8
}

/// A piece as a value: present only when not empty.
pub open spec fn opt_piece(p: Seq<char>) -> Option<Seq<char>> {
    if p.len() > 0 {
        Some(p)
    } else {
        None
    }
}

/// `CONC` lines with a space before every piece.
pub open spec fn conc_spaced_lines(level: u8, pieces: Seq<Seq<char>>) -> Seq<Seq<char>>
    decreases pieces.len(),
{
    if pieces.len() == 0 {
        Seq::empty()
    } else {
        seq![line_text(cont_level(level), None, "CONC"@, Some(pieces[0]))] + conc_spaced_lines(
            level,
            pieces.drop_first(),
        )
    }
}

/// `CONC` lines with a space only before a non-empty piece.
pub open spec fn conc_plain_lines(level: u8, pieces: Seq<Seq<char>>) -> Seq<Seq<char>>
    decreases pieces.len(),
{
    if pieces.len() == 0 {
        Seq::empty()
    } else {
        seq![line_text(cont_level(level), None, "CONC"@, opt_piece(pieces[0]))] + conc_plain_lines(
            level,
            pieces.drop_first(),
        )
    }
}

/// The pieces a segment after the first is cut into.
pub open spec fn segment_pieces(level: u8, seg: Seq<char>) -> Seq<Seq<char>> {
    split_by_bytes(seg, limit_after(byte_len(continuation_prefix(level, "CONT"@)) + 1int))
}

/// The physical lines of a segment after the first: a `CONT` line, then
/// `CONC` lines.
pub open spec fn segment_phys(level: u8, seg: Seq<char>) -> Seq<Seq<char>> {
    let pieces = segment_pieces(level, seg);
    seq![line_text(cont_level(level), None, "CONT"@, opt_piece(pieces[0]))] + conc_plain_lines(
        level,
        pieces.drop_first(),
    )
}

/// The physical lines of the segments after the first.
pub open spec fn segments_phys(level: u8, segs: Seq<Seq<char>>) -> Seq<Seq<char>>
    decreases segs.len(),
{
    if segs.len() == 0 {
        Seq::empty()
    } else {
        segment_phys(level, segs[0]) + segments_phys(level, segs.drop_first())
    }
}

/// The pieces the first segment of a value is cut into.
pub open spec fn main_pieces(head: LineView, v: Seq<char>) -> Seq<Seq<char>> {
    split_by_bytes(segments(v)[0], limit_after(byte_len(line_prefix(head)) + 1int))
}

/// The physical lines of one logical line, as rendered.
pub open spec fn line_phys(head: LineView) -> Seq<Seq<char>> {
    match head.3 {
        None => seq![line_text(head.0, head.1, head.2, None)],
        Some(v) => {
            let first = main_pieces(head, v);
            seq![line_text(head.0, head.1, head.2, Some(first[0]))] + conc_spaced_lines(head.0, first.drop_first())
                + segments_phys(head.0, segments(v).drop_first())
        },
    }
}

/// The physical lines of a sequence of logical lines.
pub open spec fn all_phys(lines: Seq<LineView>) -> Seq<Seq<char>>
    decreases lines.len(),
{
    if lines.len() == 0 {
        Seq::empty()
    } else {
        all_phys(lines.drop_last()) + line_phys(lines.last())
    }
}

/// Physical lines, each followed by a newline.
pub open spec fn lines_text(ps: Seq<Seq<char>>) -> Seq<char>
    decreases ps.len(),
{
    if ps.len() == 0 {
        Seq::empty()
    } else {
        ps[0] + seq!['\n'] + lines_text(ps.drop_first())
    }
}

proof fn lemma_lines_text_append(a: Seq<Seq<char>>, b: Seq<Seq<char>>)
    ensures
        lines_text(a + b) == lines_text(a) + lines_text(b),
    decreases a.len(),
{
    if a.len() == 0 {
        assert(a + b =~= b);
        assert(Seq::<char>::empty() + lines_text(b) =~= lines_text(b));
    } else {
        assert((a + b).drop_first() =~= a.drop_first() + b);
        assert((a + b)[0] == a[0]);
        lemma_lines_text_append(a.drop_first(), b);
        assert(a[0] + seq!['\n'] + (lines_text(a.drop_first()) + lines_text(b)) =~= a[0] + seq!['\n']
            + lines_text(a.drop_first()) + lines_text(b));
    }
}

proof fn lemma_lines_text_one(p: Seq<char>)
    ensures
        lines_text(seq![p]) == p + seq!['\n'],
{
    let s = seq![p];
    assert(s.len() == 1);
    assert(s[0] == p);
    assert(s.drop_first() =~= Seq::<Seq<char>>::empty());
    assert(lines_text(Seq::<Seq<char>>::empty()) == Seq::<char>::empty());
    assert(lines_text(s) == s[0] + seq!['\n'] + lines_text(s.drop_first()));
    assert(p + seq!['\n'] + Seq::<char>::empty() =~= p + seq!['\n']);
}

/// A continuation line's text, as `piece_line` writes it.
proof fn lemma_piece_line(level: u8, tag: Seq<char>, p: Seq<char>)
    ensures
        piece_line(continuation_prefix(level, tag), p) == line_text(cont_level(level), None, tag, opt_piece(p))
            + seq!['\n'],
{
    assert(cont_level(level) as nat == next_level(level) as nat);
    let lt = line_text(cont_level(level), None, tag, opt_piece(p));
    if p.len() > 0 {
        assert(piece_line(continuation_prefix(level, tag), p) =~= lt + seq!['\n']);
    } else {
        assert(piece_line(continuation_prefix(level, tag), p) =~= lt + seq!['\n']);
    }
}

proof fn lemma_piece_lines(level: u8, pieces: Seq<Seq<char>>)
    ensures
        piece_lines(continuation_prefix(level, "CONC"@), pieces) == lines_text(conc_plain_lines(level, pieces)),
    decreases pieces.len(),
{
    if pieces.len() > 0 {
        lemma_piece_lines(level, pieces.drop_first());
        lemma_piece_line(level, "CONC"@, pieces[0]);
        let head = line_text(cont_level(level), None, "CONC"@, opt_piece(pieces[0]));
        lemma_lines_text_append(seq![head], conc_plain_lines(level, pieces.drop_first()));
        lemma_lines_text_one(head);
    }
}

proof fn lemma_piece_lines_spaced(level: u8, pieces: Seq<Seq<char>>)
    ensures
        piece_lines_spaced(continuation_prefix(level, "CONC"@), pieces) == lines_text(
            conc_spaced_lines(level, pieces),
        ),
    decreases pieces.len(),
{
    if pieces.len() > 0 {
        lemma_piece_lines_spaced(level, pieces.drop_first());
        let head = line_text(cont_level(level), None, "CONC"@, Some(pieces[0]));
        assert(cont_level(level) as nat == next_level(level) as nat);
        assert(continuation_prefix(level, "CONC"@) + seq![' '] + pieces[0] =~= head);
        lemma_lines_text_append(seq![head], conc_spaced_lines(level, pieces.drop_first()));
        lemma_lines_text_one(head);
        assert(continuation_prefix(level, "CONC"@) + seq![' '] + pieces[0] + seq!['\n'] + piece_lines_spaced(
            continuation_prefix(level, "CONC"@),
            pieces.drop_first(),
        ) =~= head + seq!['\n'] + lines_text(conc_spaced_lines(level, pieces.drop_first())));
    }
}

proof fn lemma_segment_text(level: u8, seg: Seq<char>)
    ensures
        segment_text(level, seg) == lines_text(segment_phys(level, seg)),
{
    lemma_continuation_limits(level);
    let pieces = segment_pieces(level, seg);
    lemma_all_fit_four(seg, limit_after(byte_len(continuation_prefix(level, "CONT"@)) + 1int));
    lemma_split_by_bytes(seg, limit_after(byte_len(continuation_prefix(level, "CONT"@)) + 1int));
    lemma_piece_line(level, "CONT"@, pieces[0]);
    lemma_piece_lines(level, pieces.drop_first());
    let head = line_text(cont_level(level), None, "CONT"@, opt_piece(pieces[0]));
    lemma_lines_text_append(seq![head], conc_plain_lines(level, pieces.drop_first()));
    lemma_lines_text_one(head);
}

proof fn lemma_segment_lines(level: u8, segs: Seq<Seq<char>>)
    ensures
        segment_lines(level, segs) == lines_text(segments_phys(level, segs)),
    decreases segs.len(),
{
    if segs.len() > 0 {
        lemma_segment_lines(level, segs.drop_first());
        lemma_segment_text(level, segs[0]);
        lemma_lines_text_append(segment_phys(level, segs[0]), segments_phys(level, segs.drop_first()));
    }
}

/// Every character of the first line of a value fits on the line after its
/// prefix.
pub open spec fn value_fits(head: LineView) -> bool {
    head.3 matches Some(v) ==> all_fit(segments(v)[0], limit_after(byte_len(line_prefix(head)) + 1int))
}

/// A logical line's text is the text of its physical lines.
proof fn lemma_render_line(head: LineView)
    requires
        value_fits(head),
    ensures
        render_line(head) == lines_text(line_phys(head)),
{
    match head.3 {
        None => {
            lemma_lines_text_one(line_text(head.0, head.1, head.2, None));
            assert(line_prefix((head.0, head.1, head.2, None::<Seq<char>>)) == line_prefix(head));
            assert(line_text(head.0, head.1, head.2, None) =~= line_prefix(head));
        },
        Some(v) => {
            let segs = segments(v);
            lemma_segments(v);
            let first = main_pieces(head, v);
            lemma_split_by_bytes(segs[0], limit_after(byte_len(line_prefix(head)) + 1int));
            let main = line_text(head.0, head.1, head.2, Some(first[0]));
            assert(line_prefix((head.0, head.1, head.2, Some(first[0]))) == line_prefix(head));
            assert(main =~= line_prefix(head) + seq![' '] + first[0]);
            lemma_piece_lines_spaced(head.0, first.drop_first());
            lemma_segment_lines(head.0, segs.drop_first());
            let cs = conc_spaced_lines(head.0, first.drop_first());
            let sp = segments_phys(head.0, segs.drop_first());
            lemma_lines_text_append(seq![main], cs);
            lemma_lines_text_append(seq![main] + cs, sp);
            lemma_lines_text_one(main);
            assert(render_line(head) == value_lines(head.0, line_prefix(head), v));
            assert(value_lines(head.0, line_prefix(head), v) =~= lines_text(seq![main]) + lines_text(cs)
                + lines_text(sp));
        },
    }
}

proof fn lemma_render_lines(lines: Seq<LineView>)
    requires
        forall|i: int| 0 <= i < lines.len() ==> value_fits(#[trigger] lines[i]),
    ensures
        render_lines(lines) == lines_text(all_phys(lines)),
    decreases lines.len(),
{
    if lines.len() > 0 {
        let init = lines.drop_last();
        assert forall|i: int| 0 <= i < init.len() implies value_fits(#[trigger] init[i]) by {
            assert(init[i] == lines[i]);
        }
        lemma_render_lines(init);
        assert(value_fits(lines[lines.len() - 1]));
        lemma_render_line(lines.last());
        lemma_lines_text_append(all_phys(init), line_phys(lines.last()));
    }
}

/// `acc` with the value of its last line replaced by `v`.
pub open spec fn with_last_value(acc: Seq<LineView>, v: Seq<char>) -> Seq<LineView> {
    acc.update(acc.len() - 1, (acc.last().0, acc.last().1, acc.last().2, Some(v)))
}

proof fn lemma_with_last_twice(acc: Seq<LineView>, a: Seq<char>, b: Seq<char>)
    requires
        acc.len() > 0,
    ensures
        with_last_value(with_last_value(acc, a), b) == with_last_value(acc, b),
        with_last_value(acc, a).len() == acc.len(),
        with_last_value(acc, a).last() == (acc.last().0, acc.last().1, acc.last().2, Some(a)),
{
    assert(with_last_value(with_last_value(acc, a), b) =~= with_last_value(acc, b));
}

/// `CONC` lines with spaced pieces append the pieces to the last value.
proof fn lemma_steps_conc_spaced(acc: Seq<LineView>, w: Seq<char>, level: u8, pieces: Seq<Seq<char>>)
    requires
        acc.len() > 0,
        acc.last().3 == Some(w),
    ensures
        steps(acc, conc_spaced_lines(level, pieces)) == Some(with_last_value(acc, w + flat(pieces))),
    decreases pieces.len(),
{
    if pieces.len() == 0 {
        assert(conc_spaced_lines(level, pieces) =~= Seq::<Seq<char>>::empty());
        assert(flat(pieces) =~= Seq::<char>::empty());
        assert(w + flat(pieces) =~= w);
        assert(with_last_value(acc, w) =~= acc);
    } else {
        let p0 = pieces[0];
        let rest = pieces.drop_first();
        let l0 = line_text(cont_level(level), None, "CONC"@, Some(p0));
        lemma_steps_append(acc, seq![l0], conc_spaced_lines(level, rest));
        lemma_steps_one(acc, l0);
        lemma_step_continuation(acc, cont_level(level), false, Some(p0));
        let acc1 = with_last_value(acc, w + p0);
        lemma_with_last_twice(acc, w + p0, w + flat(pieces));
        lemma_steps_conc_spaced(acc1, w + p0, level, rest);
        assert(pieces =~= seq![p0] + rest);
        lemma_flat_prepend(p0, rest);
        assert(w + p0 + flat(rest) =~= w + flat(pieces));
    }
}

/// `CONC` lines with plain pieces append the pieces to the last value.
proof fn lemma_steps_conc_plain(acc: Seq<LineView>, w: Seq<char>, level: u8, pieces: Seq<Seq<char>>)
    requires
        acc.len() > 0,
        acc.last().3 == Some(w),
    ensures
        steps(acc, conc_plain_lines(level, pieces)) == Some(with_last_value(acc, w + flat(pieces))),
    decreases pieces.len(),
{
    if pieces.len() == 0 {
        assert(conc_plain_lines(level, pieces) =~= Seq::<Seq<char>>::empty());
        assert(flat(pieces) =~= Seq::<char>::empty());
        assert(w + flat(pieces) =~= w);
        assert(with_last_value(acc, w) =~= acc);
    } else {
        let p0 = pieces[0];
        let rest = pieces.drop_first();
        let l0 = line_text(cont_level(level), None, "CONC"@, opt_piece(p0));
        lemma_steps_append(acc, seq![l0], conc_plain_lines(level, rest));
        lemma_steps_one(acc, l0);
        lemma_step_continuation(acc, cont_level(level), false, opt_piece(p0));
        assert(continued_value(Some(w), false, opt_piece(p0)) =~= w + p0);
        let acc1 = with_last_value(acc, w + p0);
        lemma_with_last_twice(acc, w + p0, w + flat(pieces));
        lemma_steps_conc_plain(acc1, w + p0, level, rest);
        assert(pieces =~= seq![p0] + rest);
        lemma_flat_prepend(p0, rest);
        assert(w + p0 + flat(rest) =~= w + flat(pieces));
    }
}

/// The lines of a segment after the first add a newline and the segment.
proof fn lemma_steps_segment(acc: Seq<LineView>, w: Seq<char>, level: u8, seg: Seq<char>)
    requires
        acc.len() > 0,
        acc.last().3 == Some(w),
    ensures
        steps(acc, segment_phys(level, seg)) == Some(with_last_value(acc, w + seq!['\n'] + seg)),
{
    lemma_continuation_limits(level);
    let pieces = segment_pieces(level, seg);
    lemma_all_fit_four(seg, limit_after(byte_len(continuation_prefix(level, "CONT"@)) + 1int));
    lemma_split_by_bytes(seg, limit_after(byte_len(continuation_prefix(level, "CONT"@)) + 1int));
    let p0 = pieces[0];
    let rest = pieces.drop_first();
    let l0 = line_text(cont_level(level), None, "CONT"@, opt_piece(p0));
    lemma_steps_append(acc, seq![l0], conc_plain_lines(level, rest));
    lemma_steps_one(acc, l0);
    lemma_step_continuation(acc, cont_level(level), true, opt_piece(p0));
    let w1 = w + seq!['\n'] + p0;
    assert(continued_value(Some(w), true, opt_piece(p0)) =~= w1);
    let acc1 = with_last_value(acc, w1);
    lemma_with_last_twice(acc, w1, w1 + flat(rest));
    lemma_steps_conc_plain(acc1, w1, level, rest);
    assert(pieces =~= seq![p0] + rest);
    lemma_flat_prepend(p0, rest);
    assert(w1 + flat(rest) =~= w + seq!['\n'] + seg);
}

/// The lines of the segments after the first add each segment after a newline.
proof fn lemma_steps_segments(acc: Seq<LineView>, w: Seq<char>, level: u8, segs: Seq<Seq<char>>)
    requires
        acc.len() > 0,
        acc.last().3 == Some(w),
    ensures
        steps(acc, segments_phys(level, segs)) == Some(with_last_value(acc, w + tail_join(segs))),
    decreases segs.len(),
{
    if segs.len() == 0 {
        assert(segments_phys(level, segs) =~= Seq::<Seq<char>>::empty());
        assert(w + tail_join(segs) =~= w);
        assert(with_last_value(acc, w) =~= acc);
    } else {
        let rest = segs.drop_first();
        lemma_steps_append(acc, segment_phys(level, segs[0]), segments_phys(level, rest));
        lemma_steps_segment(acc, w, level, segs[0]);
        let w1 = w + seq!['\n'] + segs[0];
        let acc1 = with_last_value(acc, w1);
        lemma_with_last_twice(acc, w1, w1 + tail_join(rest));
        lemma_steps_segments(acc1, w1, level, rest);
        assert(w1 + tail_join(rest) =~= w + tail_join(segs));
    }
}

/// No carriage return occurs in `s`.
pub open spec fn no_cr(s: Seq<char>) -> bool {
    forall|i: int| 0 <= i < s.len() ==> s[i] != '\r'
}

/// A logical line that reads back after writing: a tag without whitespace
/// that is neither `CONC` nor `CONT` and does not start with `@`, an xref
/// between `@` signs without whitespace, a value without carriage returns
/// whose first line fits after the line's prefix character by character.
pub open spec fn line_ok(head: LineView) -> bool {
    &&& tag_ok(head.2)
    &&& head.2 != "CONC"@
    &&& head.2 != "CONT"@
    &&& (head.1 matches Some(x) ==> xref_ok(x))
    &&& (head.3 matches Some(v) ==> no_cr(v))
    &&& value_fits(head)
}

/// Tokenizing the physical lines of a logical line appends that line.
proof fn lemma_steps_line(acc: Seq<LineView>, head: LineView)
    requires
        line_ok(head),
    ensures
        steps(acc, line_phys(head)) == Some(acc.push(head)),
{
    match head.3 {
        None => {
            let l = line_text(head.0, head.1, head.2, None);
            lemma_steps_one(acc, l);
            lemma_step_line(acc, head.0, head.1, head.2, None);
        },
        Some(v) => {
            let segs = segments(v);
            lemma_segments(v);
            let first = main_pieces(head, v);
            lemma_split_by_bytes(segs[0], limit_after(byte_len(line_prefix(head)) + 1int));
            let main = line_text(head.0, head.1, head.2, Some(first[0]));
            let cs = conc_spaced_lines(head.0, first.drop_first());
            let sp = segments_phys(head.0, segs.drop_first());
            assert(line_phys(head) == seq![main] + cs + sp);
            lemma_steps_append(acc, seq![main] + cs, sp);
            lemma_steps_append(acc, seq![main], cs);
            lemma_steps_one(acc, main);
            lemma_step_line(acc, head.0, head.1, head.2, Some(first[0]));
            let acc1 = acc.push((head.0, head.1, head.2, Some(first[0])));
            lemma_steps_conc_spaced(acc1, first[0], head.0, first.drop_first());
            assert(first =~= seq![first[0]] + first.drop_first());
            lemma_flat_prepend(first[0], first.drop_first());
            let acc2 = with_last_value(acc1, segs[0]);
            lemma_with_last_twice(acc1, segs[0], v);
            lemma_steps_segments(acc2, segs[0], head.0, segs.drop_first());
            assert(with_last_value(acc1, v) =~= acc.push(head));
        },
    }
}

/// Tokenizing the physical lines of logical lines gives those lines.
proof fn lemma_steps_all(lines: Seq<LineView>)
    requires
        forall|i: int| 0 <= i < lines.len() ==> line_ok(#[trigger] lines[i]),
    ensures
        steps(Seq::empty(), all_phys(lines)) == Some(lines),
    decreases lines.len(),
{
    if lines.len() == 0 {
        assert(all_phys(lines) =~= Seq::<Seq<char>>::empty());
        assert(lines =~= Seq::<LineView>::empty());
    } else {
        let init = lines.drop_last();
        assert forall|i: int| 0 <= i < init.len() implies line_ok(#[trigger] init[i]) by {
            assert(init[i] == lines[i]);
        }
        lemma_steps_all(init);
        lemma_steps_append(Seq::empty(), all_phys(init), line_phys(lines.last()));
        assert(line_ok(lines[lines.len() - 1]));
        lemma_steps_line(init, lines.last());
        assert(init.push(lines.last()) =~= lines);
    }
}

/// A physical line as written: it starts with a digit and holds no line
/// break.
pub open spec fn phys_ok(p: Seq<char>) -> bool {
    p.len() > 0 && is_digit(p[0]) && no_line_break(p)
}

/// Every physical line is as written.
pub open spec fn all_phys_ok(ps: Seq<Seq<char>>) -> bool {
    forall|i: int| 0 <= i < ps.len() ==> phys_ok(#[trigger] ps[i])
}

proof fn lemma_all_phys_ok_append(a: Seq<Seq<char>>, b: Seq<Seq<char>>)
    requires
        all_phys_ok(a),
        all_phys_ok(b),
    ensures
        all_phys_ok(a + b),
{
    assert forall|i: int| 0 <= i < (a + b).len() implies phys_ok(#[trigger] (a + b)[i]) by {
        if i < a.len() {
            assert((a + b)[i] == a[i]);
        } else {
            assert((a + b)[i] == b[i - a.len()]);
        }
    }
}

proof fn lemma_no_ws_no_break(s: Seq<char>)
    requires
        no_ws(s),
    ensures
        no_line_break(s),
{
    assert forall|i: int| 0 <= i < s.len() implies #[trigger] s[i] != '\n' && s[i] != '\r' by {
        assert(!is_ws(s[i]));
        assert(('\n' as u32) == 0x0a);
        assert(('\r' as u32) == 0x0d);
    }
}

/// A written physical line starts with a digit and holds no line break.
proof fn lemma_line_text_ok(level: u8, xref: Option<Seq<char>>, tag: Seq<char>, value: Option<Seq<char>>)
    requires
        no_ws(tag),
        xref matches Some(x) ==> no_ws(x),
        value matches Some(v) ==> no_line_break(v),
    ensures
        phys_ok(line_text(level, xref, tag, value)),
{
    let d = decimal(level as nat);
    lemma_decimal(level as nat);
    let xp = match xref {
        Some(x) => seq![' '] + x,
        None => Seq::<char>::empty(),
    };
    let raw = line_text(level, xref, tag, value);
    assert(raw =~= d + xp + seq![' '] + tag + value_part(value));
    assert(raw[0] == d[0]);
    lemma_no_ws_no_break(tag);
    if let Some(x) = xref {
        lemma_no_ws_no_break(x);
    }
    assert forall|i: int| 0 <= i < raw.len() implies #[trigger] raw[i] != '\n' && raw[i] != '\r' by {
        if i < d.len() {
            assert(raw[i] == d[i]);
            assert(is_digit(d[i]));
        } else if i < d.len() + xp.len() {
            assert(raw[i] == xp[i - d.len()]);
            if let Some(x) = xref {
                if i > d.len() {
                    assert(xp[i - d.len()] == x[i - d.len() - 1]);
                }
            }
        } else if i == d.len() + xp.len() {
        } else if i < d.len() + xp.len() + 1 + tag.len() {
            assert(raw[i] == tag[i - d.len() - xp.len() - 1]);
        } else {
            let j = i - d.len() - xp.len() - 1 - tag.len();
            assert(raw[i] == value_part(value)[j]);
            if let Some(v) = value {
                if j > 0 {
                    assert(value_part(value)[j] == v[j - 1]);
                }
            }
        }
    }
}

proof fn lemma_conc_spaced_ok(level: u8, pieces: Seq<Seq<char>>)
    requires
        forall|i: int| 0 <= i < pieces.len() ==> no_line_break(#[trigger] pieces[i]),
    ensures
        all_phys_ok(conc_spaced_lines(level, pieces)),
    decreases pieces.len(),
{
    if pieces.len() > 0 {
        let rest = pieces.drop_first();
        assert forall|i: int| 0 <= i < rest.len() implies no_line_break(#[trigger] rest[i]) by {
            assert(rest[i] == pieces[i + 1]);
        }
        lemma_conc_spaced_ok(level, rest);
        lemma_conc_cont_tags();
        lemma_line_text_ok(cont_level(level), None, "CONC"@, Some(pieces[0]));
        let l = line_text(cont_level(level), None, "CONC"@, Some(pieces[0]));
        assert(all_phys_ok(seq![l]));
        lemma_all_phys_ok_append(seq![l], conc_spaced_lines(level, rest));
    }
}

proof fn lemma_conc_plain_ok(level: u8, pieces: Seq<Seq<char>>)
    requires
        forall|i: int| 0 <= i < pieces.len() ==> no_line_break(#[trigger] pieces[i]),
    ensures
        all_phys_ok(conc_plain_lines(level, pieces)),
    decreases pieces.len(),
{
    if pieces.len() > 0 {
        let rest = pieces.drop_first();
        assert forall|i: int| 0 <= i < rest.len() implies no_line_break(#[trigger] rest[i]) by {
            assert(rest[i] == pieces[i + 1]);
        }
        lemma_conc_plain_ok(level, rest);
        lemma_conc_cont_tags();
        lemma_line_text_ok(cont_level(level), None, "CONC"@, opt_piece(pieces[0]));
        let l = line_text(cont_level(level), None, "CONC"@, opt_piece(pieces[0]));
        assert(all_phys_ok(seq![l]));
        lemma_all_phys_ok_append(seq![l], conc_plain_lines(level, rest));
    }
}

proof fn lemma_segments_ok(level: u8, segs: Seq<Seq<char>>)
    requires
        forall|i: int| 0 <= i < segs.len() ==> no_line_break(#[trigger] segs[i]),
    ensures
        all_phys_ok(segments_phys(level, segs)),
    decreases segs.len(),
{
    if segs.len() > 0 {
        let rest = segs.drop_first();
        assert forall|i: int| 0 <= i < rest.len() implies no_line_break(#[trigger] rest[i]) by {
            assert(rest[i] == segs[i + 1]);
        }
        lemma_segments_ok(level, rest);
        let seg = segs[0];
        lemma_continuation_limits(level);
        lemma_all_fit_four(seg, limit_after(byte_len(continuation_prefix(level, "CONT"@)) + 1int));
        lemma_split_by_bytes(seg, limit_after(byte_len(continuation_prefix(level, "CONT"@)) + 1int));
        let pieces = segment_pieces(level, seg);
        let prest = pieces.drop_first();
        assert forall|i: int| 0 <= i < prest.len() implies no_line_break(#[trigger] prest[i]) by {
            assert(prest[i] == pieces[i + 1]);
        }
        lemma_conc_plain_ok(level, prest);
        lemma_conc_cont_tags();
        lemma_line_text_ok(cont_level(level), None, "CONT"@, opt_piece(pieces[0]));
        let l = line_text(cont_level(level), None, "CONT"@, opt_piece(pieces[0]));
        assert(all_phys_ok(seq![l]));
        lemma_all_phys_ok_append(seq![l], conc_plain_lines(level, prest));
        lemma_all_phys_ok_append(segment_phys(level, seg), segments_phys(level, rest));
    }
}

proof fn lemma_line_phys_ok(head: LineView)
    requires
        line_ok(head),
    ensures
        all_phys_ok(line_phys(head)),
{
    match head.3 {
        None => {
            lemma_line_text_ok(head.0, head.1, head.2, None);
            assert(all_phys_ok(line_phys(head)));
        },
        Some(v) => {
            let segs = segments(v);
            lemma_segments(v);
            let first = main_pieces(head, v);
            lemma_split_by_bytes(segs[0], limit_after(byte_len(line_prefix(head)) + 1int));
            let rest = first.drop_first();
            assert forall|i: int| 0 <= i < rest.len() implies no_line_break(#[trigger] rest[i]) by {
                assert(rest[i] == first[i + 1]);
            }
            let srest = segs.drop_first();
            assert forall|i: int| 0 <= i < srest.len() implies no_line_break(#[trigger] srest[i]) by {
                assert(srest[i] == segs[i + 1]);
            }
            lemma_conc_spaced_ok(head.0, rest);
            lemma_segments_ok(head.0, srest);
            lemma_line_text_ok(head.0, head.1, head.2, Some(first[0]));
            let main = line_text(head.0, head.1, head.2, Some(first[0]));
            assert(all_phys_ok(seq![main]));
            lemma_all_phys_ok_append(seq![main], conc_spaced_lines(head.0, rest));
            lemma_all_phys_ok_append(seq![main] + conc_spaced_lines(head.0, rest), segments_phys(head.0, srest));
        },
    }
}

proof fn lemma_all_phys_ok(lines: Seq<LineView>)
    requires
        forall|i: int| 0 <= i < lines.len() ==> line_ok(#[trigger] lines[i]),
    ensures
        all_phys_ok(all_phys(lines)),
    decreases lines.len(),
{
    if lines.len() > 0 {
        let init = lines.drop_last();
        assert forall|i: int| 0 <= i < init.len() implies line_ok(#[trigger] init[i]) by {
            assert(init[i] == lines[i]);
        }
        lemma_all_phys_ok(init);
        assert(line_ok(lines[lines.len() - 1]));
        lemma_line_phys_ok(lines.last());
        lemma_all_phys_ok_append(all_phys(init), line_phys(lines.last()));
    }
}

proof fn lemma_normalize_plain(s: Seq<char>)
    requires
        no_cr(s),
    ensures
        normalize_newlines(s) == s,
    decreases s.len(),
{
    if s.len() > 0 {
        let t = s.drop_first();
        assert(no_cr(t)) by {
            assert forall|i: int| 0 <= i < t.len() implies t[i] != '\r' by {
                assert(t[i] == s[i + 1]);
            }
        }
        lemma_normalize_plain(t);
        assert(s[0] != '\r');
        assert(seq![s[0]] + t =~= s);
    }
}

proof fn lemma_lines_text_facts(ps: Seq<Seq<char>>)
    requires
        all_phys_ok(ps),
    ensures
        no_cr(lines_text(ps)),
        split_lines(lines_text(ps)) == ps,
        ps.len() > 0 ==> lines_text(ps)[0] == ps[0][0],
        ps.len() == 0 ==> lines_text(ps).len() == 0,
    decreases ps.len(),
{
    if ps.len() > 0 {
        let p = ps[0];
        let rest = ps.drop_first();
        assert(all_phys_ok(rest)) by {
            assert forall|i: int| 0 <= i < rest.len() implies phys_ok(#[trigger] rest[i]) by {
                assert(rest[i] == ps[i + 1]);
            }
        }
        lemma_lines_text_facts(rest);
        assert(phys_ok(ps[0]));
        let t = lines_text(ps);
        let tr = lines_text(rest);
        assert(t == p + seq!['\n'] + tr);
        assert(t[0] == p[0]);
        assert forall|i: int| 0 <= i < t.len() implies t[i] != '\r' by {
            if i < p.len() {
                assert(t[i] == p[i]);
            } else if i > p.len() {
                assert(t[i] == tr[i - p.len() - 1]);
            }
        }
        let k = p.len() as int;
        assert forall|j: int| 0 <= j < k implies !(newline_pred())(t[j]) by {
            assert(t[j] == p[j]);
        }
        assert(t[k] == '\n');
        lemma_index_of_first(t, newline_pred(), k);
        assert(t.subrange(0, k) =~= p);
        assert(t.subrange(k + 1, t.len() as int) =~= tr);
        assert(split_lines(t) == seq![p] + split_lines(tr));
        assert(seq![p] + rest =~= ps);
    } else {
        assert(lines_text(ps) =~= Seq::<char>::empty());
        assert(split_lines(Seq::<char>::empty()) =~= Seq::<Seq<char>>::empty());
        assert(ps =~= Seq::<Seq<char>>::empty());
    }
}

/// Text made of written physical lines tokenizes to what stepping through
/// those lines gives.
proof fn lemma_tokenize_phys(ps: Seq<Seq<char>>, lines: Seq<LineView>)
    requires
        all_phys_ok(ps),
        steps(Seq::empty(), ps) == Some(lines),
    ensures
        tokenize_spec(lines_text(ps)) == Ok::<Seq<LineView>, (int, Seq<char>)>(lines),
{
    lemma_lines_text_facts(ps);
    let text = lines_text(ps);
    if ps.len() > 0 {
        assert(phys_ok(ps[0]));
        lemma_digit_not_ws(ps[0][0]);
    }
    assert(strip_bom(text) == text);
    lemma_normalize_plain(text);
    assert(physical_lines(text) == ps);
    assert(ps.subrange(0, ps.len() as int) =~= ps);
    lemma_steps_fold(ps, ps.len());
}

/// The logical lines that render and read back unchanged.
pub open spec fn lines_ok(lines: Seq<LineView>) -> bool {
    forall|i: int| 0 <= i < lines.len() ==> line_ok(#[trigger] lines[i])
}

/// Writing lines and reading the text back gives the same lines: for every
/// sequence of logical lines whose tags are neither `CONC` nor `CONT` and
/// without whitespace, whose xrefs are `@`-delimited, and whose values hold
/// no carriage return and fit their first line character by character, the
/// tokenizer reads the rendered text back to exactly those lines.
pub proof fn law_render_tokenize_round_trip(lines: Seq<LineView>)
    requires
        lines_ok(lines),
    ensures
        tokenize_spec(render_lines(lines)) == Ok::<Seq<LineView>, (int, Seq<char>)>(lines),
{
    assert forall|i: int| 0 <= i < lines.len() implies value_fits(#[trigger] lines[i]) by {
        assert(line_ok(lines[i]));
    }
    lemma_render_lines(lines);
    lemma_all_phys_ok(lines);
    lemma_steps_all(lines);
    lemma_tokenize_phys(all_phys(lines), lines);
}

/// A forest written as GEDCOM text reads back as the same forest: when its
/// roots are at level 0, every child is one level below its parent, and its
/// lines read back (`lines_ok`), tokenizing the text gives the forest's lines,
/// those lines are well nested, and any forest built from them has the same
/// nodes, values and children as the one written.
pub proof fn law_forest_text_round_trip(roots: Seq<GedcomNode>, built: Seq<GedcomNode>)
    requires
        levels_ok(roots, 0),
        lines_ok(flatten(roots)),
        levels_ok(built, 0),
        flatten(built) == flatten(roots),
    ensures
        tokenize_spec(render_lines(flatten(roots))) == Ok::<Seq<LineView>, (int, Seq<char>)>(flatten(roots)),
        well_nested(flatten(roots)),
        views_of(built) == views_of(roots),
{
    law_render_tokenize_round_trip(flatten(roots));
    law_forest_lines_round_trip(roots, built);
}

/// A line that reads back when written as it is, without continuation
/// lines: a tag as for `line_ok`, an `@`-delimited xref, and a value without
/// line breaks.
pub open spec fn kept_line_ok(h: LineView) -> bool {
    &&& tag_ok(h.2)
    &&& h.2 != "CONC"@
    &&& h.2 != "CONT"@
    &&& (h.1 matches Some(x) ==> xref_ok(x))
    &&& (h.3 matches Some(v) ==> no_line_break(v))
}

/// The physical lines of lines written as they are.
pub open spec fn kept_phys(ls: Seq<LineView>) -> Seq<Seq<char>>
    decreases ls.len(),
{
    if ls.len() == 0 {
        Seq::empty()
    } else {
        kept_phys(ls.drop_last()).push(line_text(ls.last().0, ls.last().1, ls.last().2, ls.last().3))
    }
}

proof fn lemma_kept_phys(ls: Seq<LineView>)
    requires
        forall|i: int| 0 <= i < ls.len() ==> kept_line_ok(#[trigger] ls[i]),
    ensures
        crate::gedcom::custom::lines_text(ls) == lines_text(kept_phys(ls)),
        all_phys_ok(kept_phys(ls)),
        steps(Seq::empty(), kept_phys(ls)) == Some(ls),
    decreases ls.len(),
{
    if ls.len() == 0 {
        assert(kept_phys(ls) =~= Seq::<Seq<char>>::empty());
        assert(ls =~= Seq::<LineView>::empty());
    } else {
        let init = ls.drop_last();
        let h = ls.last();
        assert forall|i: int| 0 <= i < init.len() implies kept_line_ok(#[trigger] init[i]) by {
            assert(init[i] == ls[i]);
        }
        lemma_kept_phys(init);
        assert(kept_line_ok(ls[ls.len() - 1]));
        let l = line_text(h.0, h.1, h.2, h.3);
        assert(head_text(h) =~= l + seq!['\n']);
        lemma_lines_text_append(kept_phys(init), seq![l]);
        lemma_lines_text_one(l);
        assert(kept_phys(ls) == kept_phys(init) + seq![l]);
        lemma_line_text_ok(h.0, h.1, h.2, h.3);
        assert(all_phys_ok(seq![l]));
        lemma_all_phys_ok_append(kept_phys(init), seq![l]);
        lemma_steps_append(Seq::empty(), kept_phys(init), seq![l]);
        lemma_steps_one(init, l);
        lemma_step_line(init, h.0, h.1, h.2, h.3);
        assert(init.push(h) =~= ls);
    }
}

/// The forest with `b` taken off every level.
pub open spec fn lower_views(vs: Seq<NodeView>, b: u8) -> Seq<NodeView>
    decreases vs,
{
    if vs.len() == 0 {
        Seq::empty()
    } else {
        seq![
            NodeView {
                level: (vs[0].level - b) as u8,
                xref: vs[0].xref,
                tag: vs[0].tag,
                value: vs[0].value,
                children: lower_views(vs[0].children, b),
            },
        ] + lower_views(vs.subrange(1, vs.len() as int), b)
    }
}

proof fn lemma_lower_views(vs: Seq<NodeView>, level: int, b: u8)
    requires
        levels_ok_views(vs, level),
        b <= level,
    ensures
        levels_ok_views(lower_views(vs, b), level - b),
        flatten_views(lower_views(vs, b)) == lowered(flatten_views(vs), b),
        raise_views(lower_views(vs, b), b) == vs,
    decreases vs,
{
    if vs.len() == 0 {
        assert(lowered(flatten_views(vs), b) =~= Seq::<LineView>::empty());
    } else {
        let rest = vs.subrange(1, vs.len() as int);
        lemma_lower_views(vs[0].children, level + 1, b);
        lemma_lower_views(rest, level, b);
        let lw = lower_views(vs, b);
        let lrest = lower_views(rest, b);
        assert(lw.subrange(1, lw.len() as int) =~= lrest);
        let c = flatten_views(vs[0].children);
        let r = flatten_views(rest);
        assert(flatten_views(vs) == seq![view_head(vs[0])] + c + r);
        assert(flatten_views(lw) =~= lowered(flatten_views(vs), b));
        assert(sat_add((vs[0].level - b) as u8, b) == vs[0].level);
        assert(raise_views(lw, b) =~= vs);
    }
}

proof fn lemma_min_level(ls: Seq<LineView>, m: u8)
    requires
        ls.len() > 0,
        ls[0].0 == m,
        forall|i: int| 0 <= i < ls.len() ==> ls[i].0 >= m,
    ensures
        min_level(ls) == m,
    decreases ls.len(),
{
    if ls.len() > 1 {
        let init = ls.drop_last();
        assert forall|i: int| 0 <= i < init.len() implies init[i].0 >= m by {
            assert(init[i] == ls[i]);
        }
        lemma_min_level(init, m);
    }
}

/// A vendor subtree kept as text reads back as the same subtree: when its
/// children sit one level below their parents and its lines can be written
/// as they are (`kept_line_ok`), reading its kept text gives its form back.
pub proof fn law_kept_subtree_round_trip(n: GedcomNode)
    requires
        levels_ok(seq![n], n.level as int),
        forall|i: int| 0 <= i < flatten(seq![n]).len() ==> kept_line_ok(#[trigger] flatten(seq![n])[i]),
    ensures
        deserialized(subtree_text(n)) == seq![view_of(n)],
{
    let ls = flatten(seq![n]);
    let b = n.level;
    lemma_kept_phys(ls);
    lemma_tokenize_phys(kept_phys(ls), ls);
    lemma_views_of(seq![n], b as int);
    let vs = views_of(seq![n]);
    assert(seq![n].subrange(1, 1) =~= Seq::<GedcomNode>::empty());
    assert(vs =~= seq![view_of(n)]);
    lemma_levels_bound(vs, b as int);
    lemma_min_level(ls, b);
    lemma_lower_views(vs, b as int, b);
    let lw = lower_views(vs, b);
    let norm = lowered(ls, b);
    lemma_levels_bound(lw, 0);
    lemma_flatten_steps(lw, 0);
    assert forall|i: int| 0 <= i < norm.len() implies !crate::gedcom::tree::bad_line(norm, i) by {
        if i > 0 {
            assert(norm[i].0 <= norm[i - 1].0 + 1);
        }
    }
    let c = forest_of(norm);
    assert(flatten_views(lw) == norm && levels_ok_views(lw, 0));
    assert(flatten_views(c) == norm && levels_ok_views(c, 0));
    lemma_forest_unique(c, lw, 0);
}

/// A node form without cross-reference or children.
pub open spec fn leaf_view(level: u8, tag: Seq<char>, value: Option<Seq<char>>) -> NodeView {
    NodeView { level, xref: None, tag, value, children: Seq::empty() }
}

/// The form of the header record a written GEDCOM file starts with.
pub open spec fn head_view() -> NodeView {
    NodeView {
        level: 0,
        xref: None,
        tag: "HEAD"@,
        value: None,
        children: seq![
            leaf_view(1, "SOUR"@, Some("RUSTYGENE"@)),
            NodeView {
                level: 1,
                xref: None,
                tag: "GEDC"@,
                value: None,
                children: seq![leaf_view(2, "VERS"@, Some("5.5.1"@)), leaf_view(2, "FORM"@, Some("LINEAGE-LINKED"@))],
            },
            leaf_view(1, "LANG"@, Some("ENG"@)),
            leaf_view(1, "CHAR"@, Some("UTF-8"@)),
        ],
    }
}

/// The form of the trailer record a written GEDCOM file ends with.
pub open spec fn trailer_view() -> NodeView {
    leaf_view(0, "TRLR"@, None)
}

/// The logical lines of the file written for `nodes`: header, the nodes'
/// lines, trailer.
pub open spec fn document_lines(nodes: Seq<GedcomNode>) -> Seq<LineView> {
    head_lines() + flatten(nodes) + seq![trailer_line()]
}

proof fn lemma_flatten_views_one(v: NodeView, level: int)
    ensures
        flatten_views(seq![v]) == seq![view_head(v)] + flatten_views(v.children),
        levels_ok_views(seq![v], level) == (v.level == level && levels_ok_views(v.children, level + 1)),
{
    let s = seq![v];
    assert(s[0] == v);
    assert(s.subrange(1, 1) =~= Seq::<NodeView>::empty());
    assert(flatten_views(Seq::<NodeView>::empty()) == Seq::<LineView>::empty());
    assert(flatten_views(s) =~= seq![view_head(v)] + flatten_views(v.children));
    assert(levels_ok_views(Seq::<NodeView>::empty(), level));
    assert(levels_ok_views(s, level) == (s[0].level == level && levels_ok_views(s[0].children, level + 1)
        && levels_ok_views(s.subrange(1, 1), level)));
}

proof fn lemma_flatten_views_append(a: Seq<NodeView>, b: Seq<NodeView>, level: int)
    ensures
        flatten_views(a + b) == flatten_views(a) + flatten_views(b),
        levels_ok_views(a + b, level) == (levels_ok_views(a, level) && levels_ok_views(b, level)),
    decreases a.len(),
{
    if a.len() == 0 {
        assert(a + b =~= b);
        assert(flatten_views(a) == Seq::<LineView>::empty());
        assert(flatten_views(a) + flatten_views(b) =~= flatten_views(b));
    } else {
        let ab = a + b;
        let ra = a.subrange(1, a.len() as int);
        assert(ab[0] == a[0]);
        assert(ab.subrange(1, ab.len() as int) =~= ra + b);
        lemma_flatten_views_append(ra, b, level);
        assert(flatten_views(ab) =~= flatten_views(a) + flatten_views(b));
    }
}

proof fn lemma_leaf_view(level: u8, tag: Seq<char>, value: Option<Seq<char>>, l: int)
    ensures
        flatten_views(seq![leaf_view(level, tag, value)]) == seq![(level, None::<Seq<char>>, tag, value)],
        levels_ok_views(seq![leaf_view(level, tag, value)], l) == (level == l),
{
    let v = leaf_view(level, tag, value);
    lemma_flatten_views_one(v, l);
    assert(flatten_views(v.children) == Seq::<LineView>::empty());
    assert(seq![view_head(v)] + flatten_views(v.children) =~= seq![(level, None::<Seq<char>>, tag, value)]);
}

proof fn lemma_head_view()
    ensures
        flatten_views(seq![head_view()]) == head_lines(),
        levels_ok_views(seq![head_view()], 0),
{
    let h = head_view();
    let s = leaf_view(1, "SOUR"@, Some("RUSTYGENE"@));
    let g = h.children[1];
    let v = leaf_view(2, "VERS"@, Some("5.5.1"@));
    let f = leaf_view(2, "FORM"@, Some("LINEAGE-LINKED"@));
    let la = leaf_view(1, "LANG"@, Some("ENG"@));
    let c = leaf_view(1, "CHAR"@, Some("UTF-8"@));
    lemma_leaf_view(1, "SOUR"@, Some("RUSTYGENE"@), 1);
    lemma_leaf_view(2, "VERS"@, Some("5.5.1"@), 2);
    lemma_leaf_view(2, "FORM"@, Some("LINEAGE-LINKED"@), 2);
    lemma_leaf_view(1, "LANG"@, Some("ENG"@), 1);
    lemma_leaf_view(1, "CHAR"@, Some("UTF-8"@), 1);
    assert(g.children =~= seq![v] + seq![f]);
    lemma_flatten_views_append(seq![v], seq![f], 2);
    lemma_flatten_views_one(g, 1);
    assert(h.children =~= seq![s] + seq![g] + seq![la] + seq![c]);
    lemma_flatten_views_append(seq![s], seq![g], 1);
    lemma_flatten_views_append(seq![s] + seq![g], seq![la], 1);
    lemma_flatten_views_append(seq![s] + seq![g] + seq![la], seq![c], 1);
    lemma_flatten_views_one(h, 0);
    assert(flatten_views(seq![h]) =~= head_lines());
}

/// A short line without cross-reference reads back after writing.
proof fn lemma_short_line_ok(h: LineView)
    requires
        tag_ok(h.2),
        h.2 != "CONC"@,
        h.2 != "CONT"@,
        h.1 is None,
        h.0 < 10,
        h.2.len() <= 10,
        h.3 matches Some(v) ==> no_cr(v),
    ensures
        line_ok(h),
{
    lemma_decimal(h.0 as nat);
    let p = line_prefix(h);
    assert(p.len() <= 12);
    lemma_byte_len_bound(p);
    if h.3 is Some {
        lemma_all_fit_four(segments(h.3->0)[0], limit_after(byte_len(p) + 1int));
    }
}

proof fn lemma_document_frame_lines_ok()
    ensures
        lines_ok(head_lines()),
        line_ok(trailer_line()),
{
    reveal_strlit("HEAD");
    reveal_strlit("SOUR");
    reveal_strlit("RUSTYGENE");
    reveal_strlit("GEDC");
    reveal_strlit("VERS");
    reveal_strlit("5.5.1");
    reveal_strlit("FORM");
    reveal_strlit("LINEAGE-LINKED");
    reveal_strlit("LANG");
    reveal_strlit("ENG");
    reveal_strlit("CHAR");
    reveal_strlit("UTF-8");
    reveal_strlit("TRLR");
    reveal_strlit("CONC");
    reveal_strlit("CONT");
    assert("HEAD"@[0] != "CONC"@[0] && "SOUR"@[0] != "CONC"@[0] && "GEDC"@[0] != "CONC"@[0]);
    assert("VERS"@[0] != "CONC"@[0] && "FORM"@[0] != "CONC"@[0] && "LANG"@[0] != "CONC"@[0]);
    assert("TRLR"@[0] != "CONC"@[0] && "CHAR"@[1] != "CONC"@[1]);
    assert("HEAD"@[0] != "CONT"@[0] && "SOUR"@[0] != "CONT"@[0] && "GEDC"@[0] != "CONT"@[0]);
    assert("VERS"@[0] != "CONT"@[0] && "FORM"@[0] != "CONT"@[0] && "LANG"@[0] != "CONT"@[0]);
    assert("TRLR"@[0] != "CONT"@[0] && "CHAR"@[1] != "CONT"@[1]);
    let hl = head_lines();
    lemma_short_line_ok(hl[0]);
    lemma_short_line_ok(hl[1]);
    lemma_short_line_ok(hl[2]);
    lemma_short_line_ok(hl[3]);
    lemma_short_line_ok(hl[4]);
    lemma_short_line_ok(hl[5]);
    lemma_short_line_ok(hl[6]);
    lemma_short_line_ok(trailer_line());
}

/// A written GEDCOM file reads back as what was written: for a forest whose
/// roots sit at level 0, whose children sit one level below their parents
/// and whose lines read back (`lines_ok`), the text of the file
/// (`render_gedcom_file`) tokenizes to the header's lines, the forest's lines
/// and the trailer's, those lines are well nested, and any forest built from
/// them is the header, the forest as written, and the trailer.
pub proof fn law_document_round_trip(nodes: Seq<GedcomNode>, built: Seq<GedcomNode>)
    requires
        levels_ok(nodes, 0),
        lines_ok(flatten(nodes)),
        levels_ok(built, 0),
        flatten(built) == document_lines(nodes),
    ensures
        tokenize_spec(render_lines(document_lines(nodes))) == Ok::<Seq<LineView>, (int, Seq<char>)>(
            document_lines(nodes),
        ),
        well_nested(document_lines(nodes)),
        views_of(built) == seq![head_view()] + views_of(nodes) + seq![trailer_view()],
{
    let doc = document_lines(nodes);
    let hl = head_lines();
    let fl = flatten(nodes);
    lemma_document_frame_lines_ok();
    assert forall|i: int| 0 <= i < doc.len() implies line_ok(#[trigger] doc[i]) by {
        if i < hl.len() {
            assert(doc[i] == hl[i]);
        } else if i < hl.len() + fl.len() {
            assert(doc[i] == fl[i - hl.len()]);
        } else {
            assert(doc[i] == trailer_line());
        }
    }
    law_render_tokenize_round_trip(doc);
    let vs = seq![head_view()] + views_of(nodes) + seq![trailer_view()];
    lemma_views_of(nodes, 0);
    lemma_head_view();
    lemma_leaf_view(0, "TRLR"@, None, 0);
    lemma_flatten_views_append(seq![head_view()], views_of(nodes), 0);
    lemma_flatten_views_append(seq![head_view()] + views_of(nodes), seq![trailer_view()], 0);
    assert(flatten_views(vs) == doc);
    lemma_levels_bound(vs, 0);
    lemma_flatten_steps(vs, 0);
    assert forall|i: int| 0 <= i < doc.len() implies !bad_line(doc, i) by {
        if i > 0 {
            assert(doc[i].0 <= doc[i - 1].0 + 1);
        }
    }
    lemma_views_of(built, 0);
    lemma_forest_unique(views_of(built), vs, 0);
}

/// A node whose lines are the header's, at level 0, has the header's form.
pub proof fn lemma_head_form(n: GedcomNode)
    requires
        flatten(seq![n]) == head_lines(),
        levels_ok(seq![n], 0),
    ensures
        view_of(n) == head_view(),
{
    lemma_views_of(seq![n], 0);
    lemma_head_view();
    lemma_forest_unique(views_of(seq![n]), seq![head_view()], 0);
    assert(seq![n].subrange(1, 1) =~= Seq::<GedcomNode>::empty());
    assert(views_of(seq![n])[0] == view_of(n));
}

/// A node whose lines are the trailer's, at level 0, has the trailer's form.
pub proof fn lemma_trailer_form(n: GedcomNode)
    requires
        flatten(seq![n]) == seq![trailer_line()],
        levels_ok(seq![n], 0),
    ensures
        view_of(n) == trailer_view(),
{
    lemma_views_of(seq![n], 0);
    lemma_leaf_view(0, "TRLR"@, None, 0);
    lemma_forest_unique(views_of(seq![n]), seq![trailer_view()], 0);
    assert(seq![n].subrange(1, 1) =~= Seq::<GedcomNode>::empty());
    assert(views_of(seq![n])[0] == view_of(n));
}

} // verus!
