//! GEDCOM text to logical lines.
use crate::text::{
    chars_of, find_newline, find_whitespace, index_of_first, lemma_index_of_first_bounds,
    new_string, newline_pred, parse_u8_chars, parse_u8_spec, push_char, push_str, skip_ws_from,
    string_of_range, trim_start, ws_pred,
};
use vstd::prelude::*;

verus! {

/// One logical GEDCOM line: level, optional cross-reference, tag and value.
#[derive(Debug, Clone, PartialEq, Eq)]
pub struct GedcomLine {
    pub level: u8,
    pub xref: Option<String>,
    pub tag: String,
    pub value: Option<String>,
}

/// Mathematical view of a line: `(level, xref, tag, value)`.
pub type LineView = (u8, Option<Seq<char>>, Seq<char>, Option<Seq<char>>);

impl View for GedcomLine {
    type V = LineView;

    open spec fn view(&self) -> LineView {
        (self.level, self.xref.deep_view(), self.tag@, self.value.deep_view())
    }
}

/// Views of a sequence of lines.
pub open spec fn lines_view(v: Seq<GedcomLine>) -> Seq<LineView> {
    v.map_values(|l: GedcomLine| l@)
}

#[derive(Debug, Clone, PartialEq, Eq)]
pub struct GedcomTokenizerError {
    pub line_number: usize,
    pub message: String,
}

/// `s` without one leading byte-order mark.
pub open spec fn strip_bom(s: Seq<char>) -> Seq<char> {
    if s.len() > 0 && s[0] == '\u{feff}' {
        s.drop_first()
    } else {
        s
    }
}

/// `s` with every `\r\n` and every remaining `\r` turned into `\n`.
pub open spec fn normalize_newlines(s: Seq<char>) -> Seq<char>
    decreases s.len(),
{
    if s.len() == 0 {
        s
    } else if s[0] == '\r' && s.len() >= 2 && s[1] == '\n' {
        seq!['\n'] + normalize_newlines(s.subrange(2, s.len() as int))
    } else if s[0] == '\r' {
        seq!['\n'] + normalize_newlines(s.drop_first())
    } else {
        seq![s[0]] + normalize_newlines(s.drop_first())
    }
}

/// The lines of `s` as `str::lines` gives them for text without `\r`:
/// pieces between newlines, with no final empty piece after a last newline.
pub open spec fn split_lines(s: Seq<char>) -> Seq<Seq<char>>
    decreases s.len(),
{
    if s.len() == 0 {
        Seq::empty()
    } else {
        let k = index_of_first(s, newline_pred());
        if k >= s.len() || k < 0 {
            seq![s]
        } else {
            seq![s.subrange(0, k)] + split_lines(s.subrange(k + 1, s.len() as int))
        }
    }
}

/// Tag and value of the text after a level (and xref): the tag runs to the
/// first whitespace; the value is what follows that one whitespace character.
pub open spec fn tag_value(input: Seq<char>) -> (Seq<char>, Option<Seq<char>>) {
    let i = index_of_first(input, ws_pred());
    if i >= input.len() {
        (input, None)
    } else {
        (input.subrange(0, i), Some(input.subrange(i + 1, input.len() as int)))
    }
}

/// Parse of one physical line: a level, an optional `@...@` cross-reference,
/// a tag and an optional value; `Err` carries the message.
pub open spec fn parse_physical(raw: Seq<char>) -> Result<LineView, Seq<char>> {
    let trimmed = trim_start(raw);
    if trimmed.len() == 0 {
        Err("empty line"@)
    } else {
        let fs = index_of_first(trimmed, ws_pred());
        if fs >= trimmed.len() {
            Err("missing tag after level"@)
        } else {
            let level_text = trimmed.subrange(0, fs);
            match parse_u8_spec(level_text) {
                None => Err("invalid level '"@ + level_text + "': expected unsigned integer"@),
                Some(level) => {
                    let rem = trim_start(trimmed.subrange(fs, trimmed.len() as int));
                    if rem.len() == 0 {
                        Err("missing tag after level"@)
                    } else if rem[0] == '@' {
                        let xe = index_of_first(rem, ws_pred());
                        if xe >= rem.len() {
                            Err("missing tag after xref"@)
                        } else {
                            let token = rem.subrange(0, xe);
                            if token.len() == 0 || token.last() != '@' {
                                Err("invalid xref '"@ + token + "'"@)
                            } else {
                                let after = trim_start(rem.subrange(xe, rem.len() as int));
                                if after.len() == 0 {
                                    Err("missing tag after xref"@)
                                } else {
                                    Ok((level, Some(token), tag_value(after).0, tag_value(after).1))
                                }
                            }
                        }
                    } else {
                        Ok((level, None, tag_value(rem).0, tag_value(rem).1))
                    }
                },
            }
        }
    }
}

/// The message for a continuation line with nothing to continue.
pub open spec fn orphan_continuation_message() -> Seq<char> {
    "continuation line without a previous logical line"@
}

/// The value of `prev` extended by a continuation: `CONT` adds a newline
/// first, `CONC` does not; a missing value counts as empty.
pub open spec fn continued_value(
    prior: Option<Seq<char>>,
    is_cont: bool,
    cont: Option<Seq<char>>,
) -> Seq<char> {
    let p = match prior {
        Some(v) => v,
        None => Seq::empty(),
    };
    let c = match cont {
        Some(v) => v,
        None => Seq::empty(),
    };
    if is_cont {
        p.push('\n') + c
    } else {
        p + c
    }
}

/// One tokenizing step on the logical lines gathered so far: blank lines are
/// skipped, `CONC`/`CONT` lines fold into the previous logical line, any other
/// line is appended.
pub open spec fn token_step(acc: Seq<LineView>, raw: Seq<char>, line_number: int) -> Result<
    Seq<LineView>,
    (int, Seq<char>),
> {
    if trim_start(raw).len() == 0 {
        Ok(acc)
    } else {
        match parse_physical(raw) {
            Err(m) => Err((line_number, m)),
            Ok(p) => if p.2 == "CONC"@ || p.2 == "CONT"@ {
                if acc.len() == 0 {
                    Err((line_number, orphan_continuation_message()))
                } else {
                    let prev = acc.last();
                    Ok(
                        acc.update(
                            acc.len() - 1,
                            (
                                prev.0,
                                prev.1,
                                prev.2,
                                Some(continued_value(prev.3, p.2 == "CONT"@, p.3)),
                            ),
                        ),
                    )
                }
            } else {
                Ok(acc.push(p))
            },
        }
    }
}

/// Tokenizing of the first `n` physical lines (line numbers start at 1).
pub open spec fn fold_tokens(lines: Seq<Seq<char>>, n: nat) -> Result<
    Seq<LineView>,
    (int, Seq<char>),
>
    decreases n,
{
    if n == 0 {
        Ok(Seq::empty())
    } else {
        match fold_tokens(lines, (n - 1) as nat) {
            Err(e) => Err(e),
            Ok(acc) => token_step(acc, lines[n - 1], n as int),
        }
    }
}

/// The physical lines of a GEDCOM text: byte-order mark removed, line endings
/// normalized, split at newlines.
pub open spec fn physical_lines(input: Seq<char>) -> Seq<Seq<char>> {
    split_lines(normalize_newlines(strip_bom(input)))
}

/// What tokenizing a GEDCOM text gives: its logical lines, or the number and
/// message of the first offending line.
pub open spec fn tokenize_spec(input: Seq<char>) -> Result<Seq<LineView>, (int, Seq<char>)> {
    fold_tokens(physical_lines(input), physical_lines(input).len())
}

fn normalize_chars(raw: &Vec<char>, start: usize) -> (r: Vec<char>)
    requires
        start <= raw@.len(),
    ensures
        r@ == normalize_newlines(raw@.subrange(start as int, raw@.len() as int)),
{
    let mut out: Vec<char> = Vec::new();
    let mut i = start;
    let n = raw.len();
    while i < n
        invariant
            start <= i <= n == raw@.len(),
            normalize_newlines(raw@.subrange(start as int, n as int)) == out@ + normalize_newlines(
                raw@.subrange(i as int, n as int),
            ),
        decreases n - i,
    {
        let ghost t = raw@.subrange(i as int, n as int);
        if raw[i] == '\r' && i + 1 < n && raw[i + 1] == '\n' {
            proof {
                assert(t.subrange(2, t.len() as int) =~= raw@.subrange(i + 2, n as int));
                assert(out@.push('\n') + normalize_newlines(raw@.subrange(i + 2, n as int))
                    =~= out@ + (seq!['\n'] + normalize_newlines(raw@.subrange(i + 2, n as int))));
            }
            out.push('\n');
            i = i + 2;
        } else {
            let c = if raw[i] == '\r' {
                '\n'
            } else {
                raw[i]
            };
            proof {
                assert(t.drop_first() =~= raw@.subrange(i + 1, n as int));
                assert(out@.push(c) + normalize_newlines(raw@.subrange(i + 1, n as int)) =~= out@
                    + (seq![c] + normalize_newlines(raw@.subrange(i + 1, n as int))));
            }
            out.push(c);
            i = i + 1;
        }
    }
    proof {
        assert(raw@.subrange(n as int, n as int) =~= Seq::<char>::empty());
        assert(out@ + Seq::<char>::empty() =~= out@);
    }
    out
}

fn error_at(line_number: usize, message: String) -> (r: GedcomTokenizerError)
    ensures
        r.line_number == line_number,
        r.message@ == message@,
{
    GedcomTokenizerError { line_number, message }
}

fn literal(s: &str) -> (r: String)
    ensures
        r@ == s@,
{
    let mut out = new_string();
    push_str(&mut out, s);
    proof {
        assert(Seq::<char>::empty() + s@ =~= s@);
    }
    out
}

/// Tag and value of `s[lo..hi]` (see `tag_value`).
fn split_tag_value(s: &[char], lo: usize, hi: usize) -> (r: (String, Option<String>))
    requires
        lo <= hi <= s@.len(),
    ensures
        r.0@ == tag_value(s@.subrange(lo as int, hi as int)).0,
        r.1.deep_view() == tag_value(s@.subrange(lo as int, hi as int)).1,
{
    let i = find_whitespace(s, lo, hi);
    let ghost t = s@.subrange(lo as int, hi as int);
    if i == hi {
        proof {
            assert(s@.subrange(lo as int, i as int) =~= t);
        }
        (string_of_range(s, lo, hi), None)
    } else {
        proof {
            assert(t.subrange(0, i - lo) =~= s@.subrange(lo as int, i as int));
            assert(t.subrange(i - lo + 1, t.len() as int) =~= s@.subrange(i + 1, hi as int));
        }
        (string_of_range(s, lo, i), Some(string_of_range(s, i + 1, hi)))
    }
}

/// Parses the physical line `s[lo..hi]` (see `parse_physical`).
fn parse_physical_line(s: &[char], lo: usize, hi: usize, line_number: usize) -> (r: Result<
    GedcomLine,
    GedcomTokenizerError,
>)
    requires
        lo <= hi <= s@.len(),
    ensures
        match parse_physical(s@.subrange(lo as int, hi as int)) {
            Ok(v) => r matches Ok(line) && line@ == v,
            Err(m) => r matches Err(e) && e.line_number == line_number && e.message@ == m,
        },
{
    let ghost raw = s@.subrange(lo as int, hi as int);
    let a = skip_ws_from(s, lo, hi);
    let ghost trimmed = s@.subrange(a as int, hi as int);
    if a == hi {
        return Err(error_at(line_number, literal("empty line")));
    }
    let f = find_whitespace(s, a, hi);
    if f == hi {
        return Err(error_at(line_number, literal("missing tag after level")));
    }
    proof {
        assert(trimmed.subrange(0, f - a) =~= s@.subrange(a as int, f as int));
        assert(trimmed.subrange(f - a, trimmed.len() as int) =~= s@.subrange(f as int, hi as int));
    }
    let level = match parse_u8_chars(s, a, f) {
        Some(l) => l,
        None => {
            let mut msg = literal("invalid level '");
            let level_text = string_of_range(s, a, f);
            push_str(&mut msg, level_text.as_str());
            push_str(&mut msg, "': expected unsigned integer");
            return Err(error_at(line_number, msg));
        },
    };
    let b = skip_ws_from(s, f, hi);
    if b == hi {
        return Err(error_at(line_number, literal("missing tag after level")));
    }
    let ghost rem = s@.subrange(b as int, hi as int);
    assert(rem[0] == s@[b as int]);
    if s[b] == '@' {
        let xe = find_whitespace(s, b, hi);
        if xe == hi {
            return Err(error_at(line_number, literal("missing tag after xref")));
        }
        proof {
            assert(rem.subrange(0, xe - b) =~= s@.subrange(b as int, xe as int));
            assert(rem.subrange(xe - b, rem.len() as int) =~= s@.subrange(xe as int, hi as int));
        }
        let token = string_of_range(s, b, xe);
        if s[xe - 1] != '@' {
            let mut msg = literal("invalid xref '");
            push_str(&mut msg, token.as_str());
            push_str(&mut msg, "'");
            return Err(error_at(line_number, msg));
        }
        let c = skip_ws_from(s, xe, hi);
        if c == hi {
            return Err(error_at(line_number, literal("missing tag after xref")));
        }
        let (tag, value) = split_tag_value(s, c, hi);
        Ok(GedcomLine { level, xref: Some(token), tag, value })
    } else {
        let (tag, value) = split_tag_value(s, b, hi);
        Ok(GedcomLine { level, xref: None, tag, value })
    }
}

/// Applies one physical line `s[lo..hi]` to the logical lines gathered so far
/// (see `token_step`).
fn process_line(
    lines: &mut Vec<GedcomLine>,
    s: &[char],
    lo: usize,
    hi: usize,
    line_number: usize,
) -> (r: Result<(), GedcomTokenizerError>)
    requires
        lo <= hi <= s@.len(),
    ensures
        match token_step(lines_view(old(lines)@), s@.subrange(lo as int, hi as int), line_number as int) {
            Ok(acc) => r is Ok && lines_view(final(lines)@) == acc,
            Err(em) => r matches Err(e) && e.line_number == em.0 && e.message@ == em.1,
        },
{
    let ghost raw = s@.subrange(lo as int, hi as int);
    let a = skip_ws_from(s, lo, hi);
    if a == hi {
        proof {
            assert(trim_start(raw).len() == 0);
        }
        return Ok(());
    }
    let parsed = parse_physical_line(s, lo, hi, line_number)?;
    let is_conc = crate::text::str_eq(parsed.tag.as_str(), "CONC");
    let is_cont = crate::text::str_eq(parsed.tag.as_str(), "CONT");
    if is_conc || is_cont {
        if lines.len() == 0 {
            return Err(error_at(line_number, literal("continuation line without a previous logical line")));
        }
        let ghost old_view = lines_view(lines@);
        let mut previous = lines.pop().unwrap();
        proof {
            assert(lines_view(old(lines)@).last() == previous@);
        }
        let mut prior = match previous.value {
            Some(v) => v,
            None => new_string(),
        };
        if is_cont {
            push_char(&mut prior, '\n');
        }
        match parsed.value {
            Some(v) => push_str(&mut prior, v.as_str()),
            None => {},
        }
        proof {
            let c = parsed.value.deep_view();
            assert(prior@ =~= continued_value(old_view.last().3, is_cont, c));
        }
        previous.value = Some(prior);
        lines.push(previous);
        proof {
            assert(lines_view(lines@) =~= old_view.update(
                old_view.len() - 1,
                (old_view.last().0, old_view.last().1, old_view.last().2, Some(
                    continued_value(old_view.last().3, is_cont, parsed@.3),
                )),
            ));
        }
        Ok(())
    } else {
        let ghost old_view = lines_view(lines@);
        lines.push(parsed);
        proof {
            assert(lines_view(lines@) =~= old_view.push(parsed@));
        }
        Ok(())
    }
}

proof fn lemma_fold_error_persists(lines: Seq<Seq<char>>, k: nat, m: nat)
    requires
        k <= m,
        fold_tokens(lines, k) is Err,
    ensures
        fold_tokens(lines, m) == fold_tokens(lines, k),
    decreases m - k,
{
    if k < m {
        lemma_fold_error_persists(lines, k, (m - 1) as nat);
    }
}

proof fn lemma_split_lines_step(s: Seq<char>, k: int)
    requires
        s.len() > 0,
        k == index_of_first(s, newline_pred()),
    ensures
        0 <= k <= s.len(),
        k == s.len() ==> split_lines(s) == seq![s],
        k < s.len() ==> split_lines(s) == seq![s.subrange(0, k)] + split_lines(
            s.subrange(k + 1, s.len() as int),
        ),
{
    lemma_index_of_first_bounds(s, newline_pred());
}

/// Parse GEDCOM text into normalized lines.
///
/// Continuation lines (`CONC` and `CONT`) are folded into the prior logical line:
/// - `CONC` appends text directly.
/// - `CONT` appends a newline (`\n`) then text.
pub fn tokenize_gedcom(input: &str) -> (r: Result<Vec<GedcomLine>, GedcomTokenizerError>)
    ensures
        match r {
            Ok(v) => tokenize_spec(input@) == Ok::<Seq<LineView>, (int, Seq<char>)>(lines_view(v@)),
            Err(e) => tokenize_spec(input@) == Err::<Seq<LineView>, (int, Seq<char>)>(
                (e.line_number as int, e.message@),
            ),
        },
{
    let raw = chars_of(input);
    let start: usize = if raw.len() > 0 && raw[0] == '\u{feff}' {
        1
    } else {
        0
    };
    proof {
        if start == 1 {
            assert(raw@.subrange(1, raw@.len() as int) =~= strip_bom(input@));
        } else {
            assert(raw@.subrange(0, raw@.len() as int) =~= strip_bom(input@));
        }
    }
    let norm = normalize_chars(&raw, start);
    let ghost all = split_lines(norm@);
    assert(all == physical_lines(input@));
    let n = norm.len();
    let mut lines: Vec<GedcomLine> = Vec::new();
    let mut pos: usize = 0;
    let mut idx: usize = 0;
    proof {
        assert(norm@.subrange(0, n as int) =~= norm@);
        assert(all.subrange(0, all.len() as int) =~= all);
        assert(lines_view(lines@) =~= Seq::<LineView>::empty());
    }
    while pos < n
        invariant
            n == norm@.len(),
            all == split_lines(norm@),
            all == physical_lines(input@),
            pos <= n,
            idx <= pos,
            idx <= all.len(),
            split_lines(norm@.subrange(pos as int, n as int)) == all.subrange(
                idx as int,
                all.len() as int,
            ),
            fold_tokens(all, idx as nat) == Ok::<Seq<LineView>, (int, Seq<char>)>(
                lines_view(lines@),
            ),
        decreases n - pos,
    {
        let e = find_newline(norm.as_slice(), pos, n);
        let ghost rest = norm@.subrange(pos as int, n as int);
        proof {
            lemma_split_lines_step(rest, e - pos);
            assert(rest.subrange(0, e - pos) =~= norm@.subrange(pos as int, e as int));
            if e < n {
                assert(rest.subrange(e - pos + 1, rest.len() as int) =~= norm@.subrange(
                    e + 1,
                    n as int,
                ));
            } else {
                assert(rest =~= norm@.subrange(pos as int, e as int));
            }
            assert(split_lines(rest).len() >= 1);
            assert(idx < all.len());
            assert(all.subrange(idx as int, all.len() as int)[0] == all[idx as int]);
            assert(all[idx as int] == norm@.subrange(pos as int, e as int));
        }
        let line_number = idx + 1;
        let ghost before = lines_view(lines@);
        let step = process_line(&mut lines, norm.as_slice(), pos, e, line_number);
        match step {
            Err(err) => {
                proof {
                    assert(fold_tokens(all, (idx + 1) as nat) == token_step(
                        before,
                        all[idx as int],
                        (idx + 1) as int,
                    ));
                    let res = token_step(before, all[idx as int], (idx + 1) as int);
                    assert(res is Err);
                    assert(res == Err::<Seq<LineView>, (int, Seq<char>)>(
                        (err.line_number as int, err.message@),
                    ));
                    lemma_fold_error_persists(all, (idx + 1) as nat, all.len());
                    assert(all == physical_lines(input@));
                }
                return Err(err);
            },
            Ok(()) => {},
        }
        proof {
            if e < n {
                assert(all.subrange(idx + 1, all.len() as int) =~= all.subrange(
                    idx as int,
                    all.len() as int,
                ).drop_first());
            } else {
                assert(all.subrange(idx as int, all.len() as int).len() == 1);
            }
        }
        pos = if e < n {
            e + 1
        } else {
            n
        };
        idx = idx + 1;
        proof {
            if pos == n && e < n {
                assert(norm@.subrange(pos as int, n as int) =~= Seq::<char>::empty());
            }
        }
    }
    proof {
        assert(norm@.subrange(pos as int, n as int) =~= Seq::<char>::empty());
        assert(all.subrange(idx as int, all.len() as int).len() == 0);
    }
    Ok(lines)
}

} // verus!
