//! GEDCOM nodes to text, with `CONC`/`CONT` continuation lines for long or
//! multi-line values.
use crate::gedcom::tokenizer::LineView;
use crate::gedcom::tree::{flatten, node_head, GedcomNode, lemma_flatten_push};
use crate::text::{
    byte_len, utf8_len, utf8_len_of, chars_of, decimal, find_newline, index_of_first, lemma_index_of_first_bounds, new_string,
    newline_pred, push_char, push_decimal, push_str, string_of_range,
};
use vstd::prelude::*;

verus! {

pub const GEDCOM_MAX_LINE_LENGTH: usize = 255;

/// How many leading characters of `s` fit in `budget` bytes.
pub open spec fn fit_count(s: Seq<char>, budget: int) -> nat
    decreases s.len(),
{
    if s.len() == 0 || utf8_len(s[0]) > budget {
        0
    } else {
        1 + fit_count(s.drop_first(), budget - utf8_len(s[0]))
    }
}

/// Greedy chunks of at most `max` bytes each; stops at a character that
/// alone exceeds `max`.
pub open spec fn byte_chunks(s: Seq<char>, max: int) -> Seq<Seq<char>>
    decreases s.len(),
{
    let k = fit_count(s, max);
    if s.len() == 0 || k == 0 || k > s.len() {
        Seq::empty()
    } else {
        seq![s.subrange(0, k as int)] + byte_chunks(s.subrange(k as int, s.len() as int), max)
    }
}

/// Pieces of `s` of at most `max` UTF-8 bytes, never splitting a character;
/// an empty text, or a zero limit, gives `s` itself; at least one piece.
pub open spec fn split_by_bytes(s: Seq<char>, max: int) -> Seq<Seq<char>> {
    if s.len() == 0 || max == 0 {
        seq![s]
    } else if byte_chunks(s, max).len() == 0 {
        seq![Seq::<char>::empty()]
    } else {
        byte_chunks(s, max)
    }
}

/// The pieces of `s` between newlines (`str::split('\n')`).
pub open spec fn segments(s: Seq<char>) -> Seq<Seq<char>>
    decreases s.len(),
{
    let k = index_of_first(s, newline_pred());
    if k >= s.len() || k < 0 {
        seq![s]
    } else {
        seq![s.subrange(0, k)] + segments(s.subrange(k + 1, s.len() as int))
    }
}

/// `255 - used`, or 0 when `used` exceeds 255; at least 1.
pub open spec fn limit_after(used: int) -> int {
    let l = if used > 255 {
        0
    } else {
        255 - used
    };
    if l < 1 {
        1
    } else {
        l
    }
}

/// `level + 1`, saturating at 255.
pub open spec fn next_level(level: u8) -> int {
    if level == 255 {
        255
    } else {
        level + 1
    }
}

/// Prefix of a continuation line: `"<level+1> CONC"` or `"<level+1> CONT"`.
pub open spec fn continuation_prefix(level: u8, tag: Seq<char>) -> Seq<char> {
    decimal(next_level(level) as nat) + seq![' '] + tag
}

/// Line prefix of a node: level, optional xref, tag.
pub open spec fn line_prefix(head: LineView) -> Seq<char> {
    decimal(head.0 as nat) + match head.1 {
        Some(x) => seq![' '] + x,
        None => Seq::empty(),
    } + seq![' '] + head.2
}

/// One continuation line: its prefix, a space and the piece when it is not empty.
pub open spec fn piece_line(prefix: Seq<char>, piece: Seq<char>) -> Seq<char> {
    prefix + (if piece.len() > 0 {
        seq![' '] + piece
    } else {
        Seq::empty()
    }) + seq!['\n']
}

/// `CONC` lines for the given pieces.
pub open spec fn piece_lines(prefix: Seq<char>, pieces: Seq<Seq<char>>) -> Seq<char>
    decreases pieces.len(),
{
    if pieces.len() == 0 {
        Seq::empty()
    } else {
        piece_line(prefix, pieces[0]) + piece_lines(prefix, pieces.drop_first())
    }
}

/// Lines for one segment after the first: a `CONT` line with its first piece,
/// then `CONC` lines for the remaining pieces.
pub open spec fn segment_text(level: u8, seg: Seq<char>) -> Seq<char> {
    let tp = continuation_prefix(level, "CONT"@);
    let cp = continuation_prefix(level, "CONC"@);
    let first = split_by_bytes(seg, limit_after(byte_len(tp) + 1int));
    let rest = split_by_bytes(seg, limit_after(byte_len(cp) + 1int));
    piece_line(tp, first[0]) + piece_lines(cp, rest.drop_first())
}

/// Lines for the segments after the first.
pub open spec fn segment_lines(level: u8, segs: Seq<Seq<char>>) -> Seq<char>
    decreases segs.len(),
{
    if segs.len() == 0 {
        Seq::empty()
    } else {
        segment_text(level, segs[0]) + segment_lines(level, segs.drop_first())
    }
}

/// Text of a line with a value: the first piece of the first segment on the
/// line itself, further pieces as `CONC` lines, further segments as `CONT`
/// lines (each again split into pieces).
pub open spec fn value_lines(level: u8, prefix: Seq<char>, value: Seq<char>) -> Seq<char> {
    let segs = segments(value);
    let cp = continuation_prefix(level, "CONC"@);
    let first = split_by_bytes(segs[0], limit_after(byte_len(prefix) + 1int));
    prefix + seq![' '] + first[0] + seq!['\n'] + piece_lines_spaced(cp, first.drop_first()) + segment_lines(
        level,
        segs.drop_first(),
    )
}

/// `CONC` lines that always put a space before the piece.
pub open spec fn piece_lines_spaced(prefix: Seq<char>, pieces: Seq<Seq<char>>) -> Seq<char>
    decreases pieces.len(),
{
    if pieces.len() == 0 {
        Seq::empty()
    } else {
        prefix + seq![' '] + pieces[0] + seq!['\n'] + piece_lines_spaced(prefix, pieces.drop_first())
    }
}

/// Text of one node's own line(s).
pub open spec fn render_line(head: LineView) -> Seq<char> {
    match head.3 {
        None => line_prefix(head) + seq!['\n'],
        Some(v) => value_lines(head.0, line_prefix(head), v),
    }
}

/// Text of a sequence of lines.
pub open spec fn render_lines(lines: Seq<LineView>) -> Seq<char>
    decreases lines.len(),
{
    if lines.len() == 0 {
        Seq::empty()
    } else {
        render_lines(lines.drop_last()) + render_line(lines.last())
    }
}

pub proof fn lemma_render_lines_append(a: Seq<LineView>, b: Seq<LineView>)
    ensures
        render_lines(a + b) == render_lines(a) + render_lines(b),
    decreases b.len(),
{
    if b.len() == 0 {
        assert(a + b =~= a);
        assert(render_lines(a) + Seq::<char>::empty() =~= render_lines(a));
    } else {
        assert((a + b).drop_last() =~= a + b.drop_last());
        lemma_render_lines_append(a, b.drop_last());
        assert(render_lines(a) + render_lines(b.drop_last()) + render_line(b.last()) =~= render_lines(a) + render_lines(b));
    }
}

/// UTF-8 byte length of `s[lo..hi]`.
fn byte_len_of(s: &[char], lo: usize, hi: usize) -> (r: usize)
    requires
        lo <= hi <= s@.len(),
        hi - lo < 0x1000_0000,
    ensures
        r == byte_len(s@.subrange(lo as int, hi as int)),
{
    let mut total: usize = 0;
    let mut i = lo;
    while i < hi
        invariant
            lo <= i <= hi <= s@.len(),
            hi - lo < 0x1000_0000,
            total == byte_len(s@.subrange(lo as int, i as int)),
            total <= 4 * (i - lo),
        decreases hi - i,
    {
        proof {
            let t = s@.subrange(lo as int, i + 1);
            assert(t.drop_last() =~= s@.subrange(lo as int, i as int));
            assert(t.last() == s@[i as int]);
        }
        total = total + utf8_len_of(s[i]);
        i = i + 1;
    }
    total
}

/// Splits `s[lo..hi]` into pieces of at most `max_bytes` UTF-8 bytes (see
/// `split_by_bytes`).
fn split_utf8_by_bytes(s: &[char], lo: usize, hi: usize, max_bytes: usize) -> (r: Vec<String>)
    requires
        lo <= hi <= s@.len(),
    ensures
        r@.map_values(|x: String| x@) == split_by_bytes(s@.subrange(lo as int, hi as int), max_bytes as int),
        r@.len() >= 1,
{
    let ghost whole = s@.subrange(lo as int, hi as int);
    if lo == hi || max_bytes == 0 {
        let mut v: Vec<String> = Vec::new();
        v.push(string_of_range(s, lo, hi));
        proof {
            assert(v@.map_values(|x: String| x@) =~= seq![whole]);
        }
        return v;
    }
    let mut chunks: Vec<String> = Vec::new();
    let mut start = lo;
    let mut stopped = false;
    proof {
        assert(s@.subrange(start as int, hi as int) =~= whole);
    }
    while start < hi && !stopped
        invariant
            lo <= start <= hi <= s@.len(),
            max_bytes > 0,
            whole == s@.subrange(lo as int, hi as int),
            byte_chunks(whole, max_bytes as int) == chunks@.map_values(|x: String| x@) + (if stopped {
                Seq::empty()
            } else {
                byte_chunks(s@.subrange(start as int, hi as int), max_bytes as int)
            }),
        decreases hi - start, if stopped { 0int } else { 1int },
    {
        let ghost rest = s@.subrange(start as int, hi as int);
        let mut end = start;
        let mut bytes: usize = 0;
        while end < hi && utf8_len_of(s[end]) <= max_bytes - bytes
            invariant
                start <= end <= hi <= s@.len(),
                bytes <= max_bytes,
                rest == s@.subrange(start as int, hi as int),
                fit_count(rest, max_bytes as int) == (end - start) + fit_count(
                    s@.subrange(end as int, hi as int),
                    max_bytes - bytes,
                ),
            decreases hi - end,
        {
            proof {
                let u = s@.subrange(end as int, hi as int);
                assert(u[0] == s@[end as int]);
                assert(u.drop_first() =~= s@.subrange(end + 1, hi as int));
            }
            bytes = bytes + utf8_len_of(s[end]);
            end = end + 1;
        }
        proof {
            let u = s@.subrange(end as int, hi as int);
            if end < hi {
                assert(u[0] == s@[end as int]);
            }
            assert(fit_count(u, max_bytes - bytes) == 0);
        }
        if end == start {
            stopped = true;
            proof {
                assert(byte_chunks(rest, max_bytes as int) =~= Seq::<Seq<char>>::empty());
                assert(chunks@.map_values(|x: String| x@) + Seq::<Seq<char>>::empty() =~= chunks@.map_values(|x: String| x@));
            }
        } else {
            let piece = string_of_range(s, start, end);
            let ghost before = chunks@.map_values(|x: String| x@);
            chunks.push(piece);
            proof {
                assert(rest.subrange(0, (end - start) as int) =~= s@.subrange(start as int, end as int));
                assert(rest.subrange((end - start) as int, rest.len() as int) =~= s@.subrange(end as int, hi as int));
                assert(chunks@.map_values(|x: String| x@) =~= before.push(s@.subrange(start as int, end as int)));
                assert(byte_chunks(rest, max_bytes as int) == seq![s@.subrange(start as int, end as int)] + byte_chunks(s@.subrange(end as int, hi as int), max_bytes as int));
                assert(before + byte_chunks(rest, max_bytes as int) =~= before.push(s@.subrange(start as int, end as int)) + byte_chunks(s@.subrange(end as int, hi as int), max_bytes as int));
            }
            start = end;
        }
    }
    proof {
        if !stopped {
            assert(s@.subrange(start as int, hi as int).len() == 0);
            assert(byte_chunks(s@.subrange(start as int, hi as int), max_bytes as int) =~= Seq::<Seq<char>>::empty());
        }
        assert(byte_chunks(whole, max_bytes as int) =~= chunks@.map_values(|x: String| x@));
    }
    if chunks.len() == 0 {
        chunks.push(new_string());
        proof {
            assert(chunks@.map_values(|x: String| x@) =~= seq![Seq::<char>::empty()]);
        }
    }
    chunks
}

/// Views of a vector of strings.
pub open spec fn strings_view(v: Seq<String>) -> Seq<Seq<char>> {
    v.map_values(|x: String| x@)
}

proof fn lemma_byte_len_prefix_monotone(s: Seq<char>, i: int)
    requires
        0 <= i <= s.len(),
    ensures
        byte_len(s.subrange(0, i)) <= byte_len(s),
    decreases s.len() - i,
{
    if i < s.len() {
        lemma_byte_len_prefix_monotone(s, i + 1);
        assert(s.subrange(0, i + 1).drop_last() =~= s.subrange(0, i));
    } else {
        assert(s.subrange(0, i) =~= s);
    }
}

/// The limit `limit_after(byte_len(s) + 1)` for the characters of `s`.
fn limit_for(s: &[char]) -> (r: usize)
    ensures
        r as int == limit_after(byte_len(s@) + 1int),
{
    let n = s.len();
    let mut total: usize = 0;
    let mut i: usize = 0;
    while i < n
        invariant
            i <= n == s@.len(),
            total == byte_len(s@.subrange(0, i as int)),
            total <= 300,
        decreases n - i,
    {
        proof {
            let t = s@.subrange(0, i + 1);
            assert(t.drop_last() =~= s@.subrange(0, i as int));
            assert(t.last() == s@[i as int]);
        }
        total = total + utf8_len_of(s[i]);
        i = i + 1;
        if total > 256 {
            proof {
                lemma_byte_len_prefix_monotone(s@, i as int);
            }
            return 1;
        }
    }
    proof {
        assert(s@.subrange(0, n as int) =~= s@);
    }
    let used = total + 1;
    let l = if used > 255 {
        0
    } else {
        255 - used
    };
    if l < 1 {
        1
    } else {
        l
    }
}

/// `CONC` lines, each with a space before its piece, for `pieces[from..]`.
fn write_pieces_spaced(out: &mut String, prefix: &str, pieces: &Vec<String>, from: usize)
    requires
        from <= pieces@.len(),
    ensures
        final(out)@ == old(out)@ + piece_lines_spaced(prefix@, strings_view(pieces@).subrange(from as int, pieces@.len() as int)),
{
    let mut i = from;
    proof {
        assert(old(out)@ + Seq::<char>::empty() =~= old(out)@);
    }
    while i < pieces.len()
        invariant
            from <= i <= pieces@.len(),
            old(out)@ + piece_lines_spaced(prefix@, strings_view(pieces@).subrange(from as int, pieces@.len() as int))
                == out@ + piece_lines_spaced(prefix@, strings_view(pieces@).subrange(i as int, pieces@.len() as int)),
        decreases pieces@.len() - i,
    {
        let ghost rest = strings_view(pieces@).subrange(i as int, pieces@.len() as int);
        let ghost before = out@;
        push_str(out, prefix);
        push_char(out, ' ');
        push_str(out, pieces[i].as_str());
        push_char(out, '\n');
        proof {
            assert(rest[0] == pieces@[i as int]@);
            assert(rest.drop_first() =~= strings_view(pieces@).subrange(i + 1, pieces@.len() as int));
            assert(out@ =~= before + (prefix@ + seq![' '] + rest[0] + seq!['\n']));
        }
        i = i + 1;
    }
    proof {
        assert(strings_view(pieces@).subrange(i as int, pieces@.len() as int).len() == 0);
        assert(out@ + Seq::<char>::empty() =~= out@);
    }
}

/// Continuation lines (see `piece_line`) for `pieces[from..]`.
fn write_pieces(out: &mut String, prefix: &str, pieces: &Vec<String>, from: usize)
    requires
        from <= pieces@.len(),
    ensures
        final(out)@ == old(out)@ + piece_lines(prefix@, strings_view(pieces@).subrange(from as int, pieces@.len() as int)),
{
    let mut i = from;
    proof {
        assert(old(out)@ + Seq::<char>::empty() =~= old(out)@);
    }
    while i < pieces.len()
        invariant
            from <= i <= pieces@.len(),
            old(out)@ + piece_lines(prefix@, strings_view(pieces@).subrange(from as int, pieces@.len() as int))
                == out@ + piece_lines(prefix@, strings_view(pieces@).subrange(i as int, pieces@.len() as int)),
        decreases pieces@.len() - i,
    {
        let ghost rest = strings_view(pieces@).subrange(i as int, pieces@.len() as int);
        let ghost before = out@;
        write_piece_line(out, prefix, &pieces[i]);
        proof {
            assert(rest[0] == pieces@[i as int]@);
            assert(rest.drop_first() =~= strings_view(pieces@).subrange(i + 1, pieces@.len() as int));
            assert(out@ =~= before + piece_line(prefix@, rest[0]));
        }
        i = i + 1;
    }
    proof {
        assert(strings_view(pieces@).subrange(i as int, pieces@.len() as int).len() == 0);
        assert(out@ + Seq::<char>::empty() =~= out@);
    }
}

fn write_piece_line(out: &mut String, prefix: &str, piece: &String)
    ensures
        final(out)@ == old(out)@ + piece_line(prefix@, piece@),
{
    push_str(out, prefix);
    let empty = piece.as_str().is_empty();
    if !empty {
        push_char(out, ' ');
        push_str(out, piece.as_str());
    }
    push_char(out, '\n');
    proof {
        if !empty {
            assert(final(out)@ =~= old(out)@ + piece_line(prefix@, piece@));
        } else {
            assert(final(out)@ =~= old(out)@ + piece_line(prefix@, piece@));
        }
    }
}

/// `"<level+1> <tag>"` for a continuation tag.
fn continuation_prefix_string(level: u8, tag: &str) -> (r: String)
    ensures
        r@ == continuation_prefix(level, tag@),
{
    let mut p = new_string();
    let next: u64 = if level == 255 {
        255
    } else {
        level as u64 + 1
    };
    push_decimal(&mut p, next);
    push_char(&mut p, ' ');
    push_str(&mut p, tag);
    proof {
        assert(p@ =~= continuation_prefix(level, tag@));
    }
    p
}

fn write_segment(
    out: &mut String,
    level: u8,
    v: &Vec<char>,
    start: usize,
    end: usize,
    cont: &String,
    conc: &String,
    cont_limit: usize,
    conc_limit: usize,
)
    requires
        start <= end <= v@.len(),
        conc@ == continuation_prefix(level, "CONC"@),
        cont@ == continuation_prefix(level, "CONT"@),
        conc_limit as int == limit_after(byte_len(conc@) + 1int),
        cont_limit as int == limit_after(byte_len(cont@) + 1int),
    ensures
        final(out)@ == old(out)@ + segment_text(level, v@.subrange(start as int, end as int)),
{
    let head_chunks = split_utf8_by_bytes(v.as_slice(), start, end, cont_limit);
    let tail_chunks = split_utf8_by_bytes(v.as_slice(), start, end, conc_limit);
    write_piece_line(out, cont.as_str(), &head_chunks[0]);
    write_pieces(out, conc.as_str(), &tail_chunks, 1);
    proof {
        assert(strings_view(head_chunks@)[0] == head_chunks@[0]@);
        assert(strings_view(tail_chunks@).subrange(1, tail_chunks@.len() as int) =~= strings_view(tail_chunks@).drop_first());
    }
}

proof fn lemma_segments_step(s: Seq<char>, k: int)
    requires
        k == index_of_first(s, newline_pred()),
    ensures
        0 <= k <= s.len(),
        k == s.len() ==> segments(s) == seq![s],
        k < s.len() ==> segments(s) == seq![s.subrange(0, k)] + segments(s.subrange(k + 1, s.len() as int)),
{
    lemma_index_of_first_bounds(s, newline_pred());
}

/// Writes a line with a value, folding long or multi-line values into
/// `CONC`/`CONT` continuation lines (see `value_lines`).
fn write_value_lines(out: &mut String, level: u8, prefix: &String, value: &String)
    ensures
        final(out)@ == old(out)@ + value_lines(level, prefix@, value@),
{
    let pchars = chars_of(prefix.as_str());
    let v = chars_of(value.as_str());
    let n = v.len();
    let first_limit = limit_for(pchars.as_slice());
    let conc = continuation_prefix_string(level, "CONC");
    let cont = continuation_prefix_string(level, "CONT");
    let conc_chars = chars_of(conc.as_str());
    let cont_chars = chars_of(cont.as_str());
    let conc_limit = limit_for(conc_chars.as_slice());
    let cont_limit = limit_for(cont_chars.as_slice());
    let e = find_newline(v.as_slice(), 0, n);
    proof {
        assert(v@.subrange(0, n as int) =~= v@);
        lemma_segments_step(v@, e as int);
        assert(v@.subrange(0, e as int) =~= v@.subrange(0, e as int));
        if e == n {
            assert(v@.subrange(0, e as int) =~= v@);
        }
    }
    let first_chunks = split_utf8_by_bytes(v.as_slice(), 0, e, first_limit);
    let ghost segs = segments(value@);
    let ghost start_out = old(out)@;
    push_str(out, prefix.as_str());
    push_char(out, ' ');
    push_str(out, first_chunks[0].as_str());
    push_char(out, '\n');
    proof {
        assert(strings_view(first_chunks@)[0] == first_chunks@[0]@);
    }
    write_pieces_spaced(out, conc.as_str(), &first_chunks, 1);
    proof {
        assert(strings_view(first_chunks@).subrange(1, first_chunks@.len() as int) =~= strings_view(first_chunks@).drop_first());
        assert(out@ =~= start_out + (prefix@ + seq![' '] + first_chunks@[0]@ + seq!['\n'] + piece_lines_spaced(conc@, strings_view(first_chunks@).drop_first())));
        assert(segs[0] == v@.subrange(0, e as int));
        if e < n {
            assert(segs.drop_first() =~= segments(v@.subrange(e + 1, n as int)));
        } else {
            assert(segs.drop_first().len() == 0);
        }
    }
    let mut pos = e;
    while pos < n
        invariant
            n == v@.len(),
            v@ == value@,
            pos <= n,
            pos < n ==> v@[pos as int] == '\n',
            conc@ == continuation_prefix(level, "CONC"@),
            cont@ == continuation_prefix(level, "CONT"@),
            conc_limit as int == limit_after(byte_len(conc@) + 1int),
            cont_limit as int == limit_after(byte_len(cont@) + 1int),
            start_out + value_lines(level, prefix@, value@) == out@ + segment_lines(
                level,
                if pos < n {
                    segments(v@.subrange(pos + 1, n as int))
                } else {
                    Seq::empty()
                },
            ),
        decreases n - pos,
    {
        let start = pos + 1;
        let e2 = find_newline(v.as_slice(), start, n);
        let ghost rest = v@.subrange(start as int, n as int);
        proof {
            lemma_segments_step(rest, e2 - start);
            assert(rest.subrange(0, e2 - start) =~= v@.subrange(start as int, e2 as int));
            if e2 < n {
                assert(rest.subrange(e2 - start + 1, rest.len() as int) =~= v@.subrange(e2 + 1, n as int));
            } else {
                assert(rest =~= v@.subrange(start as int, e2 as int));
            }
        }
        let ghost before = out@;
        write_segment(out, level, &v, start, e2, &cont, &conc, cont_limit, conc_limit);
        proof {
            let segs2 = segments(rest);
            assert(segs2.len() > 0);
            assert(segs2[0] == v@.subrange(start as int, e2 as int));
            let next_rem: Seq<Seq<char>> = if e2 < n {
                segments(v@.subrange(e2 + 1, n as int))
            } else {
                Seq::empty()
            };
            if e2 < n {
                assert(segs2.drop_first() =~= segments(v@.subrange(e2 + 1, n as int)));
            } else {
                assert(segs2.drop_first() =~= next_rem);
            }
            assert(segment_lines(level, segs2) == segment_text(level, segs2[0]) + segment_lines(level, next_rem));
            assert(before + segment_lines(level, segs2) =~= out@ + segment_lines(level, next_rem));
        }
        pos = e2;
    }
    proof {
        assert(out@ + Seq::<char>::empty() =~= out@);
    }
}

proof fn lemma_render_single(h: LineView)
    ensures
        render_lines(seq![h]) == render_line(h),
{
    assert(seq![h].drop_last() =~= Seq::<LineView>::empty());
    assert(seq![h].last() == h);
    assert(render_lines(Seq::<LineView>::empty()) == Seq::<char>::empty());
    assert(Seq::<char>::empty() + render_line(h) =~= render_line(h));
}

/// Writes a node's line(s) and then those of its descendants.
fn write_gedcom_node(out: &mut String, node: &GedcomNode)
    ensures
        final(out)@ == old(out)@ + render_line(node_head(*node)) + render_lines(flatten(node.children@)),
    decreases node,
{
    let mut prefix = new_string();
    push_decimal(&mut prefix, node.level as u64);
    match &node.xref {
        Some(x) => {
            push_char(&mut prefix, ' ');
            push_str(&mut prefix, x.as_str());
        },
        None => {},
    }
    push_char(&mut prefix, ' ');
    push_str(&mut prefix, node.tag.as_str());
    proof {
        assert(prefix@ =~= line_prefix(node_head(*node)));
    }
    match &node.value {
        Some(value) => {
            write_value_lines(out, node.level, &prefix, value);
        },
        None => {
            push_str(out, prefix.as_str());
            push_char(out, '\n');
            proof {
                assert(out@ =~= old(out)@ + render_line(node_head(*node)));
            }
        },
    }
    let ghost base = out@;
    let mut i: usize = 0;
    proof {
        assert(flatten(node.children@.subrange(0, 0)) =~= Seq::<LineView>::empty());
        assert(base + Seq::<char>::empty() =~= base);
    }
    while i < node.children.len()
        invariant
            i <= node.children@.len(),
            out@ == base + render_lines(flatten(node.children@.subrange(0, i as int))),
        decreases node.children@.len() - i,
    {
        let ghost before = out@;
        write_gedcom_node(out, &node.children[i]);
        proof {
            let c = node.children@[i as int];
            let pre = node.children@.subrange(0, i as int);
            assert(node.children@.subrange(0, i + 1) =~= pre.push(c));
            lemma_flatten_push(pre, c);
            lemma_render_lines_append(flatten(pre) + seq![node_head(c)], flatten(c.children@));
            lemma_render_lines_append(flatten(pre), seq![node_head(c)]);
            lemma_render_single(node_head(c));
            assert(out@ =~= base + render_lines(flatten(node.children@.subrange(0, i + 1))));
        }
        i = i + 1;
    }
    proof {
        assert(node.children@.subrange(0, i as int) =~= node.children@);
    }
}

/// Writes a forest of nodes.
fn write_nodes(out: &mut String, nodes: &[GedcomNode])
    ensures
        final(out)@ == old(out)@ + render_lines(flatten(nodes@)),
{
    let ghost base = out@;
    let mut i: usize = 0;
    proof {
        assert(flatten(nodes@.subrange(0, 0)) =~= Seq::<LineView>::empty());
        assert(base + Seq::<char>::empty() =~= base);
    }
    while i < nodes.len()
        invariant
            i <= nodes@.len(),
            base == old(out)@,
            out@ == base + render_lines(flatten(nodes@.subrange(0, i as int))),
        decreases nodes@.len() - i,
    {
        write_gedcom_node(out, &nodes[i]);
        proof {
            let c = nodes@[i as int];
            let pre = nodes@.subrange(0, i as int);
            assert(nodes@.subrange(0, i + 1) =~= pre.push(c));
            lemma_flatten_push(pre, c);
            lemma_render_lines_append(flatten(pre) + seq![node_head(c)], flatten(c.children@));
            lemma_render_lines_append(flatten(pre), seq![node_head(c)]);
            lemma_render_single(node_head(c));
            assert(out@ =~= base + render_lines(flatten(nodes@.subrange(0, i + 1))));
        }
        i = i + 1;
    }
    proof {
        assert(nodes@.subrange(0, i as int) =~= nodes@);
    }
}

/// GEDCOM text of a forest of nodes, line by line in document order.
pub fn serialize_gedcom_nodes(nodes: &[GedcomNode]) -> (r: String)
    ensures
        r@ == render_lines(flatten(nodes@)),
{
    let mut out = new_string();
    write_nodes(&mut out, nodes);
    proof {
        assert(Seq::<char>::empty() + render_lines(flatten(nodes@)) =~= render_lines(flatten(nodes@)));
    }
    out
}

fn leaf(level: u8, tag: &str, value: Option<&str>) -> (r: GedcomNode)
    ensures
        r.level == level,
        r.xref is None,
        r.tag@ == tag@,
        r.value.deep_view() == (match value {
            Some(v) => Some(v@),
            None => None::<Seq<char>>,
        }),
        r.children@.len() == 0,
{
    GedcomNode {
        level,
        xref: None,
        tag: crate::text::str_to_string(tag),
        value: match value {
            Some(v) => Some(crate::text::str_to_string(v)),
            None => None,
        },
        children: Vec::new(),
    }
}

/// The lines of the export header: `HEAD` with `SOUR RUSTYGENE`,
/// `GEDC` (`VERS 5.5.1`, `FORM LINEAGE-LINKED`), `LANG ENG` and `CHAR UTF-8`.
pub open spec fn head_lines() -> Seq<LineView> {
    seq![
        (0u8, None, "HEAD"@, None),
        (1u8, None, "SOUR"@, Some("RUSTYGENE"@)),
        (1u8, None, "GEDC"@, None),
        (2u8, None, "VERS"@, Some("5.5.1"@)),
        (2u8, None, "FORM"@, Some("LINEAGE-LINKED"@)),
        (1u8, None, "LANG"@, Some("ENG"@)),
        (1u8, None, "CHAR"@, Some("UTF-8"@)),
    ]
}

/// The trailer line `0 TRLR`.
pub open spec fn trailer_line() -> LineView {
    (0u8, None, "TRLR"@, None)
}

#[must_use]
pub fn gedcom_head_node() -> (r: GedcomNode)
    ensures
        flatten(seq![r]) == head_lines(),
        crate::gedcom::tree::levels_ok(seq![r], 0),
        crate::gedcom::tree::view_of(r) == crate::gedcom::round_trip::head_view(),
{
    let sour = leaf(1, "SOUR", Some("RUSTYGENE"));
    let mut gedc = leaf(1, "GEDC", None);
    let vers = leaf(2, "VERS", Some("5.5.1"));
    let form = leaf(2, "FORM", Some("LINEAGE-LINKED"));
    gedc.children.push(vers);
    gedc.children.push(form);
    let lang = leaf(1, "LANG", Some("ENG"));
    let chr = leaf(1, "CHAR", Some("UTF-8"));
    let mut head = leaf(0, "HEAD", None);
    head.children.push(sour);
    head.children.push(gedc);
    head.children.push(lang);
    head.children.push(chr);
    proof {
        reveal_with_fuel(flatten, 8);
        reveal_with_fuel(crate::gedcom::tree::levels_ok, 8);
        assert(gedc.children@[0] == vers);
        assert(gedc.children@[1] == form);
        assert(flatten(gedc.children@) =~= seq![node_head(vers), node_head(form)]);
        assert(flatten(head.children@) =~= seq![
            node_head(sour),
            node_head(gedc),
            node_head(vers),
            node_head(form),
            node_head(lang),
            node_head(chr),
        ]);
        assert(flatten(seq![head]) =~= head_lines());
        crate::gedcom::round_trip::lemma_head_form(head);
    }
    head
}

#[must_use]
pub fn gedcom_trailer_node() -> (r: GedcomNode)
    ensures
        flatten(seq![r]) == seq![trailer_line()],
        crate::gedcom::tree::levels_ok(seq![r], 0),
        crate::gedcom::tree::view_of(r) == crate::gedcom::round_trip::trailer_view(),
{
    let r = leaf(0, "TRLR", None);
    proof {
        reveal_with_fuel(flatten, 2);
        reveal_with_fuel(crate::gedcom::tree::levels_ok, 2);
        assert(seq![r][0] == r);
        assert(seq![r].subrange(1, 1) =~= Seq::<GedcomNode>::empty());
        assert(r.children@ =~= Seq::<GedcomNode>::empty());
        assert(flatten(seq![r]) =~= seq![trailer_line()]);
        crate::gedcom::round_trip::lemma_trailer_form(r);
    }
    r
}

/// A whole GEDCOM document: header, the given records, trailer.
#[must_use]
pub fn render_gedcom_file(entity_nodes: &[GedcomNode]) -> (r: String)
    ensures
        r@ == render_lines(head_lines() + flatten(entity_nodes@) + seq![trailer_line()]),
{
    let mut out = new_string();
    let head = gedcom_head_node();
    let trailer = gedcom_trailer_node();
    write_gedcom_node(&mut out, &head);
    write_nodes(&mut out, entity_nodes);
    write_gedcom_node(&mut out, &trailer);
    proof {
        assert(seq![head][0] == head);
        assert(seq![head].subrange(1, 1) =~= Seq::<GedcomNode>::empty());
        assert(seq![trailer][0] == trailer);
        assert(seq![trailer].subrange(1, 1) =~= Seq::<GedcomNode>::empty());
        assert(flatten(Seq::<GedcomNode>::empty()) == Seq::<LineView>::empty());
        assert(flatten(seq![head]) =~= seq![node_head(head)] + flatten(head.children@));
        lemma_render_lines_append(seq![node_head(head)], flatten(head.children@));
        lemma_render_single(node_head(head));
        assert(flatten(seq![trailer]) =~= seq![node_head(trailer)] + flatten(trailer.children@));
        lemma_render_lines_append(seq![node_head(trailer)], flatten(trailer.children@));
        lemma_render_single(node_head(trailer));
        lemma_render_lines_append(head_lines(), flatten(entity_nodes@));
        lemma_render_lines_append(head_lines() + flatten(entity_nodes@), seq![trailer_line()]);
        assert(out@ =~= render_lines(head_lines() + flatten(entity_nodes@) + seq![trailer_line()]));
    }
    out
}

} // verus!
