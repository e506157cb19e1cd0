//! Person search and merge helpers: query terms, phonetic codes (Soundex and
//! a simple Metaphone), full-text match queries, merge keys and merge plans.
use crate::text::{
    alphanumeric, ascii_letter, ascii_lower, ascii_lower_text, ascii_upper, byte_len, chars_of,
    decimal, is_alphanumeric, is_ascii_letter, is_whitespace, is_ws, join, join_strings,
    new_string, push_ascii_lower, push_char, push_decimal, push_str, str_to_string,
    string_from_chars, string_of_range, to_ascii_lower_char, to_ascii_upper_char, utf8_len, utf8_len_of, views,
};
use crate::types::EntityId;
use vstd::prelude::*;

verus! {

/// Lower-cased (ASCII) text with all whitespace removed.
pub open spec fn squeezed_lower(s: Seq<char>) -> Seq<char>
    decreases s.len(),
{
    if s.len() == 0 {
        Seq::empty()
    } else {
        let p = squeezed_lower(s.drop_last());
        let c = ascii_lower(s.last());
        if is_ws(c) {
            p
        } else {
            p.push(c)
        }
    }
}

/// The merge form of an optional name: absent counts as empty.
pub open spec fn merge_name_of(name: Option<String>) -> Seq<char> {
    match name {
        Some(s) => squeezed_lower(s@),
        None => Seq::empty(),
    }
}

/// Normalizes a name for merge matching: ASCII lower case, whitespace removed.
pub fn normalize_merge_name(name: Option<String>) -> (r: String)
    ensures
        r@ == merge_name_of(name),
{
    let text = match name {
        Some(s) => s,
        None => new_string(),
    };
    let cs = chars_of(text.as_str());
    let mut out = new_string();
    let mut i: usize = 0;
    while i < cs.len()
        invariant
            i <= cs@.len(),
            cs@ == text@,
            out@ == squeezed_lower(cs@.subrange(0, i as int)),
        decreases cs@.len() - i,
    {
        proof {
            assert(cs@.subrange(0, i + 1).drop_last() =~= cs@.subrange(0, i as int));
        }
        let c = to_ascii_lower_char(cs[i]);
        if !is_whitespace(c) {
            push_char(&mut out, c);
        }
        i = i + 1;
    }
    proof {
        assert(cs@.subrange(0, i as int) =~= cs@);
    }
    out
}

/// "name|birth|death": the key under which persons are matched for merging.
pub open spec fn merge_key_of(name: Seq<char>, birth: Seq<char>, death: Seq<char>) -> Seq<char> {
    name + seq!['|'] + birth + seq!['|'] + death
}

pub fn merge_key(name: &str, birth: &str, death: &str) -> (r: String)
    ensures
        r@ == merge_key_of(name@, birth@, death@),
{
    let mut out = str_to_string(name);
    push_char(&mut out, '|');
    push_str(&mut out, birth);
    push_char(&mut out, '|');
    push_str(&mut out, death);
    out
}

/// The export cross-reference: the preserved one, else "@" prefix (index + 1) "@".
pub open spec fn xref_of(original: Option<Seq<char>>, prefix: char, index: nat) -> Seq<char> {
    match original {
        Some(x) => x,
        None => seq!['@', prefix] + decimal(index + 1) + seq!['@'],
    }
}

pub fn preserved_or_generated_xref(original_xref: Option<&str>, prefix: char, index: usize) -> (r:
    String)
    requires
        index < usize::MAX,
    ensures
        r@ == xref_of(
            match original_xref {
                Some(x) => Some(x@),
                None => None,
            },
            prefix,
            index as nat,
        ),
{
    match original_xref {
        Some(x) => str_to_string(x),
        None => {
            let mut out = new_string();
            push_char(&mut out, '@');
            push_char(&mut out, prefix);
            push_decimal(&mut out, (index + 1) as u64);
            push_char(&mut out, '@');
            proof {
                assert(out@ =~= seq!['@', prefix] + decimal((index + 1) as nat) + seq!['@']);
            }
            out
        },
    }
}

/// The name to search for (the named option wins over the positional one)
/// and whether to search fuzzily (always for a positional query).
pub fn resolve_person_query<'a>(
    positional_query: Option<&'a str>,
    named_query: Option<&'a str>,
    fuzzy_flag: bool,
) -> (r: (Option<&'a str>, bool))
    ensures
        r.0 == (if named_query is Some {
            named_query
        } else {
            positional_query
        }),
        r.1 == (positional_query is Some || fuzzy_flag),
{
    let effective_name = match named_query {
        Some(n) => Some(n),
        None => positional_query,
    };
    let effective_fuzzy = positional_query.is_some() || fuzzy_flag;
    (effective_name, effective_fuzzy)
}

/// Terms found so far and the term being read, scanning `s` from the left:
/// a term is a maximal run of alphanumeric characters, in ASCII lower case.
pub open spec fn terms_scan(s: Seq<char>) -> (Seq<Seq<char>>, Seq<char>)
    decreases s.len(),
{
    if s.len() == 0 {
        (Seq::empty(), Seq::empty())
    } else {
        let (done, cur) = terms_scan(s.drop_last());
        let c = s.last();
        if alphanumeric(c) {
            (done, cur.push(ascii_lower(c)))
        } else if cur.len() > 0 {
            (done.push(cur), Seq::empty())
        } else {
            (done, cur)
        }
    }
}

/// The search terms of a text: its runs of alphanumeric characters, in ASCII
/// lower case, in order.
pub open spec fn search_terms_of(s: Seq<char>) -> Seq<Seq<char>> {
    let (done, cur) = terms_scan(s);
    if cur.len() > 0 {
        done.push(cur)
    } else {
        done
    }
}

/// Splits a text into lower-cased search terms at every non-alphanumeric
/// character.
pub fn search_terms(text: &str) -> (r: Vec<String>)
    ensures
        views(r@) == search_terms_of(text@),
{
    let cs = chars_of(text);
    let mut done: Vec<String> = Vec::new();
    let mut cur: Vec<char> = Vec::new();
    let mut i: usize = 0;
    while i < cs.len()
        invariant
            i <= cs@.len(),
            cs@ == text@,
            views(done@) == terms_scan(cs@.subrange(0, i as int)).0,
            cur@ == terms_scan(cs@.subrange(0, i as int)).1,
        decreases cs@.len() - i,
    {
        proof {
            assert(cs@.subrange(0, i + 1).drop_last() =~= cs@.subrange(0, i as int));
        }
        let c = cs[i];
        if is_alphanumeric(c) {
            cur.push(to_ascii_lower_char(c));
        } else if cur.len() > 0 {
            let term = string_from_chars(cur.as_slice());
            let ghost before = done@;
            done.push(term);
            proof {
                assert(views(done@) =~= views(before).push(term@));
            }
            cur = Vec::new();
        }
        i = i + 1;
    }
    proof {
        assert(cs@.subrange(0, i as int) =~= cs@);
    }
    if cur.len() > 0 {
        let term = string_from_chars(cur.as_slice());
        let ghost before = done@;
        done.push(term);
        proof {
            assert(views(done@) =~= views(before).push(term@));
        }
    }
    done
}

/// The ASCII letters of a text, in order.
pub open spec fn ascii_letters(s: Seq<char>) -> Seq<char>
    decreases s.len(),
{
    if s.len() == 0 {
        Seq::empty()
    } else {
        let p = ascii_letters(s.drop_last());
        if is_ascii_letter(s.last()) {
            p.push(s.last())
        } else {
            p
        }
    }
}

fn ascii_letters_of(text: &str) -> (r: Vec<char>)
    ensures
        r@ == ascii_letters(text@),
{
    let cs = chars_of(text);
    let mut out: Vec<char> = Vec::new();
    let mut i: usize = 0;
    while i < cs.len()
        invariant
            i <= cs@.len(),
            cs@ == text@,
            out@ == ascii_letters(cs@.subrange(0, i as int)),
        decreases cs@.len() - i,
    {
        proof {
            assert(cs@.subrange(0, i + 1).drop_last() =~= cs@.subrange(0, i as int));
        }
        if ascii_letter(cs[i]) {
            out.push(cs[i]);
        }
        i = i + 1;
    }
    proof {
        assert(cs@.subrange(0, i as int) =~= cs@);
    }
    out
}

/// The Soundex digit of an upper-case letter; '0' for vowels, H, W and Y.
pub open spec fn soundex_code(c: char) -> char {
    if c == 'B' || c == 'F' || c == 'P' || c == 'V' {
        '1'
    } else if c == 'C' || c == 'G' || c == 'J' || c == 'K' || c == 'Q' || c == 'S' || c == 'X' || c
        == 'Z' {
        '2'
    } else if c == 'D' || c == 'T' {
        '3'
    } else if c == 'L' {
        '4'
    } else if c == 'M' || c == 'N' {
        '5'
    } else if c == 'R' {
        '6'
    } else {
        '0'
    }
}

fn soundex_digit(c: char) -> (r: char)
    ensures
        r == soundex_code(c),
{
    if c == 'B' || c == 'F' || c == 'P' || c == 'V' {
        '1'
    } else if c == 'C' || c == 'G' || c == 'J' || c == 'K' || c == 'Q' || c == 'S' || c == 'X' || c
        == 'Z' {
        '2'
    } else if c == 'D' || c == 'T' {
        '3'
    } else if c == 'L' {
        '4'
    } else if c == 'M' || c == 'N' {
        '5'
    } else if c == 'R' {
        '6'
    } else {
        '0'
    }
}

/// The Soundex digits after the first letter: a letter with code '0'
/// separates; a repeated code is written once; at most four characters.
pub open spec fn soundex_scan(rest: Seq<char>, prev: char, acc: Seq<char>) -> Seq<char>
    decreases rest.len(),
{
    if acc.len() >= 4 || rest.len() == 0 {
        acc
    } else {
        let code = soundex_code(ascii_upper(rest[0]));
        if code == '0' {
            soundex_scan(rest.drop_first(), '0', acc)
        } else if code != prev {
            soundex_scan(rest.drop_first(), code, acc.push(code))
        } else {
            soundex_scan(rest.drop_first(), code, acc)
        }
    }
}

/// `acc` padded with '0' to four characters.
pub open spec fn pad_zeros(acc: Seq<char>) -> Seq<char>
    decreases 4 - acc.len(),
{
    if acc.len() >= 4 {
        acc
    } else {
        pad_zeros(acc.push('0'))
    }
}

/// The Soundex code of a text's ASCII letters; none without letters.
pub open spec fn soundex_of(s: Seq<char>) -> Option<Seq<char>> {
    let letters = ascii_letters(s);
    if letters.len() == 0 {
        None
    } else {
        let first = ascii_upper(letters[0]);
        Some(pad_zeros(soundex_scan(letters.drop_first(), soundex_code(first), seq![first])))
    }
}

/// The four-character Soundex code of the ASCII letters of `token`.
pub fn soundex(token: &str) -> (r: Option<String>)
    ensures
        match r {
            Some(x) => soundex_of(token@) == Some(x@),
            None => soundex_of(token@) is None,
        },
{
    let letters = ascii_letters_of(token);
    if letters.len() == 0 {
        return None;
    }
    let first = to_ascii_upper_char(letters[0]);
    let mut acc: Vec<char> = Vec::new();
    acc.push(first);
    let mut previous = soundex_digit(first);
    let ghost target = soundex_scan(letters@.drop_first(), soundex_code(first), seq![first]);
    proof {
        assert(acc@ =~= seq![first]);
        assert(letters@.subrange(1, letters@.len() as int) =~= letters@.drop_first());
    }
    let mut j: usize = 1;
    while j < letters.len() && acc.len() < 4
        invariant
            1 <= j <= letters@.len(),
            1 <= acc@.len() <= 4,
            soundex_scan(letters@.subrange(j as int, letters@.len() as int), previous, acc@)
                == target,
        decreases letters@.len() - j,
    {
        let ghost rest = letters@.subrange(j as int, letters@.len() as int);
        proof {
            assert(rest.drop_first() =~= letters@.subrange(j + 1, letters@.len() as int));
            assert(rest[0] == letters@[j as int]);
        }
        let code = soundex_digit(to_ascii_upper_char(letters[j]));
        if code == '0' {
            previous = '0';
        } else {
            if code != previous {
                acc.push(code);
            }
            previous = code;
        }
        j = j + 1;
    }
    proof {
        if j >= letters@.len() {
            assert(letters@.subrange(j as int, letters@.len() as int).len() == 0);
        }
    }
    while acc.len() < 4
        invariant
            acc@.len() <= 4,
            pad_zeros(acc@) == pad_zeros(target),
        decreases 4 - acc@.len(),
    {
        acc.push('0');
    }
    Some(string_from_chars(acc.as_slice()))
}

/// The Metaphone code for the letter at the front of `rest` (upper-case
/// letters) and how many letters it takes: CH, GH and PH are read as one.
/// A vowel is kept only as the very first code.
pub open spec fn metaphone_step(rest: Seq<char>, at_start: bool) -> (Option<char>, int) {
    let ch = rest[0];
    let h_next = rest.len() > 1 && rest[1] == 'H';
    if ch == 'A' || ch == 'E' || ch == 'I' || ch == 'O' || ch == 'U' {
        (if at_start {
            Some(ch)
        } else {
            None
        }, 1)
    } else if ch == 'B' {
        (Some('B'), 1)
    } else if ch == 'C' {
        if h_next {
            (Some('X'), 2)
        } else {
            (Some('K'), 1)
        }
    } else if ch == 'D' {
        (Some('T'), 1)
    } else if ch == 'F' {
        (Some('F'), 1)
    } else if ch == 'G' {
        if h_next {
            (Some('F'), 2)
        } else {
            (Some('K'), 1)
        }
    } else if ch == 'J' {
        (Some('J'), 1)
    } else if ch == 'K' || ch == 'Q' {
        (Some('K'), 1)
    } else if ch == 'L' {
        (Some('L'), 1)
    } else if ch == 'M' || ch == 'N' {
        (Some('N'), 1)
    } else if ch == 'P' {
        if h_next {
            (Some('F'), 2)
        } else {
            (Some('P'), 1)
        }
    } else if ch == 'R' {
        (Some('R'), 1)
    } else if ch == 'S' || ch == 'X' || ch == 'Z' {
        (Some('S'), 1)
    } else if ch == 'T' {
        (Some('T'), 1)
    } else if ch == 'V' || ch == 'W' {
        (Some('F'), 1)
    } else {
        (None, 1)
    }
}

/// `out` with `code` appended unless it already ends with it.
pub open spec fn append_code(out: Seq<char>, code: Option<char>) -> Seq<char> {
    match code {
        Some(k) => if out.len() > 0 && out.last() == k {
            out
        } else {
            out.push(k)
        },
        None => out,
    }
}

/// The Metaphone codes of the letters in `rest`, appended to `out`.
pub open spec fn metaphone_scan(rest: Seq<char>, out: Seq<char>) -> Seq<char>
    decreases rest.len(),
{
    if rest.len() == 0 {
        out
    } else {
        let (code, n) = metaphone_step(rest, out.len() == 0);
        let taken = if n == 2 && rest.len() >= 2 {
            2int
        } else {
            1int
        };
        metaphone_scan(rest.subrange(taken, rest.len() as int), append_code(out, code))
    }
}

/// The simplified Metaphone code of a text's ASCII letters; none when empty.
pub open spec fn metaphone_of(s: Seq<char>) -> Option<Seq<char>> {
    let out = metaphone_scan(ascii_letters(s).map_values(|c: char| ascii_upper(c)), Seq::empty());
    if out.len() == 0 {
        None
    } else {
        Some(out)
    }
}

fn metaphone_code(letters: &Vec<char>, i: usize, at_start: bool) -> (r: (Option<char>, usize))
    requires
        i < letters@.len(),
    ensures
        r.0 == metaphone_step(letters@.subrange(i as int, letters@.len() as int), at_start).0,
        r.1 as int == metaphone_step(letters@.subrange(i as int, letters@.len() as int), at_start).1,
{
    let ch = letters[i];
    let h_next = letters.len() - i > 1 && letters[i + 1] == 'H';
    if ch == 'A' || ch == 'E' || ch == 'I' || ch == 'O' || ch == 'U' {
        (if at_start {
            Some(ch)
        } else {
            None
        }, 1)
    } else if ch == 'B' {
        (Some('B'), 1)
    } else if ch == 'C' {
        if h_next {
            (Some('X'), 2)
        } else {
            (Some('K'), 1)
        }
    } else if ch == 'D' {
        (Some('T'), 1)
    } else if ch == 'F' {
        (Some('F'), 1)
    } else if ch == 'G' {
        if h_next {
            (Some('F'), 2)
        } else {
            (Some('K'), 1)
        }
    } else if ch == 'J' {
        (Some('J'), 1)
    } else if ch == 'K' || ch == 'Q' {
        (Some('K'), 1)
    } else if ch == 'L' {
        (Some('L'), 1)
    } else if ch == 'M' || ch == 'N' {
        (Some('N'), 1)
    } else if ch == 'P' {
        if h_next {
            (Some('F'), 2)
        } else {
            (Some('P'), 1)
        }
    } else if ch == 'R' {
        (Some('R'), 1)
    } else if ch == 'S' || ch == 'X' || ch == 'Z' {
        (Some('S'), 1)
    } else if ch == 'T' {
        (Some('T'), 1)
    } else if ch == 'V' || ch == 'W' {
        (Some('F'), 1)
    } else {
        (None, 1)
    }
}

/// A simplified Metaphone code of the ASCII letters of `token`.
pub fn simple_metaphone(token: &str) -> (r: Option<String>)
    ensures
        match r {
            Some(x) => metaphone_of(token@) == Some(x@),
            None => metaphone_of(token@) is None,
        },
{
    let letters0 = ascii_letters_of(token);
    let mut letters: Vec<char> = Vec::new();
    let mut k: usize = 0;
    while k < letters0.len()
        invariant
            k <= letters0@.len(),
            letters@ == letters0@.subrange(0, k as int).map_values(|c: char| ascii_upper(c)),
        decreases letters0@.len() - k,
    {
        letters.push(to_ascii_upper_char(letters0[k]));
        proof {
            assert(letters0@.subrange(0, k + 1).map_values(|c: char| ascii_upper(c))
                =~= letters0@.subrange(0, k as int).map_values(|c: char| ascii_upper(c)).push(
                ascii_upper(letters0@[k as int]),
            ));
        }
        k = k + 1;
    }
    proof {
        assert(letters0@.subrange(0, k as int) =~= letters0@);
        assert(letters@.subrange(0, letters@.len() as int) =~= letters@);
    }
    let ghost target = metaphone_scan(letters@, Seq::empty());
    let mut out: Vec<char> = Vec::new();
    let mut i: usize = 0;
    while i < letters.len()
        invariant
            i <= letters@.len(),
            metaphone_scan(letters@.subrange(i as int, letters@.len() as int), out@) == target,
        decreases letters@.len() - i,
    {
        let (code, n) = metaphone_code(&letters, i, out.len() == 0);
        let ghost before = out@;
        match code {
            Some(c) => {
                if !(out.len() > 0 && out[out.len() - 1] == c) {
                    out.push(c);
                }
            },
            None => {},
        }
        let step: usize = if n == 2 && i + 2 <= letters.len() {
            2
        } else {
            1
        };
        proof {
            let rest = letters@.subrange(i as int, letters@.len() as int);
            assert(out@ == append_code(before, code));
            assert(rest.subrange(step as int, rest.len() as int) =~= letters@.subrange(
                i + step,
                letters@.len() as int,
            ));
        }
        i = i + step;
    }
    proof {
        assert(letters@.subrange(i as int, letters@.len() as int).len() == 0);
    }
    if out.len() == 0 {
        None
    } else {
        Some(string_from_chars(out.as_slice()))
    }
}

/// Whether the first two bytes of a term of three or more bytes end on a
/// character boundary, so that they can be sliced off.
pub open spec fn splits_at_two(t: Seq<char>) -> bool {
    byte_len(t) >= 3 ==> (utf8_len(t[0]) == 2 || (utf8_len(t[0]) == 1 && t.len() >= 2 && utf8_len(
        t[1],
    ) == 1))
}

/// The characters of the first two bytes of a term.
pub open spec fn two_byte_prefix(t: Seq<char>) -> Seq<char> {
    if utf8_len(t[0]) == 2 {
        t.subrange(0, 1)
    } else {
        t.subrange(0, 2)
    }
}

/// The alternatives matched for one term: the term as a prefix, its first
/// two bytes as a prefix (terms of three or more bytes), and, when fuzzy,
/// its Soundex ("sx") and Metaphone ("mp") tokens.
pub open spec fn term_variants(t: Seq<char>, fuzzy: bool) -> Seq<Seq<char>> {
    let a = seq![t + "*"@];
    let b = if byte_len(t) >= 3 {
        a.push(two_byte_prefix(t) + "*"@)
    } else {
        a
    };
    let c = if fuzzy && soundex_of(t) is Some {
        b.push("sx"@ + ascii_lower_text(soundex_of(t)->0))
    } else {
        b
    };
    if fuzzy && metaphone_of(t) is Some {
        c.push("mp"@ + ascii_lower_text(metaphone_of(t)->0))
    } else {
        c
    }
}

/// One term's alternatives, parenthesized and joined by " OR ".
pub open spec fn term_group(t: Seq<char>, fuzzy: bool) -> Seq<char> {
    "("@ + join(term_variants(t, fuzzy), " OR "@) + ")"@
}

/// The full-text match query for a name: "*" without terms, else each
/// term's group joined by " AND ".
pub open spec fn match_query_of(name: Seq<char>, fuzzy: bool) -> Seq<char> {
    let terms = search_terms_of(name);
    if terms.len() == 0 {
        "*"@
    } else {
        join(terms.map_values(|t: Seq<char>| term_group(t, fuzzy)), " AND "@)
    }
}

/// Whether every search term of `name` can have its first two bytes sliced off.
pub open spec fn match_query_defined(name: Seq<char>) -> bool {
    forall|i: int| 0 <= i < search_terms_of(name).len() ==> #[trigger] splits_at_two(
        search_terms_of(name)[i],
    )
}

/// Whether the UTF-8 length of `s` is at least `k` bytes.
fn byte_len_at_least(s: &[char], k: usize) -> (r: bool)
    requires
        k <= usize::MAX - 4,
    ensures
        r == (byte_len(s@) >= k),
{
    let mut total: usize = 0;
    let mut i: usize = 0;
    while i < s.len() && total < k
        invariant
            i <= s@.len(),
            k <= usize::MAX - 4,
            total == byte_len(s@.subrange(0, i as int)),
            total < k + 4,
        decreases s@.len() - i,
    {
        proof {
            assert(s@.subrange(0, i + 1).drop_last() =~= s@.subrange(0, i as int));
        }
        total = total + utf8_len_of(s[i]);
        i = i + 1;
    }
    proof {
        lemma_byte_len_prefix(s@, i as int);
        if i == s@.len() {
            assert(s@.subrange(0, i as int) =~= s@);
        }
    }
    total >= k
}

/// Byte lengths only grow along prefixes.
pub proof fn lemma_byte_len_prefix(s: Seq<char>, i: int)
    requires
        0 <= i <= s.len(),
    ensures
        byte_len(s.subrange(0, i)) <= byte_len(s),
    decreases s.len() - i,
{
    if i < s.len() {
        lemma_byte_len_prefix(s, i + 1);
        assert(s.subrange(0, i + 1).drop_last() =~= s.subrange(0, i));
    } else {
        assert(s.subrange(0, i) =~= s);
    }
}

fn term_group_text(term: &String, fuzzy: bool) -> (r: String)
    requires
        splits_at_two(term@),
    ensures
        r@ == term_group(term@, fuzzy),
{
    let tc = chars_of(term.as_str());
    let mut variants: Vec<String> = Vec::new();
    let mut whole = term.clone();
    push_str(&mut whole, "*");
    variants.push(whole);
    let ghost a = seq![term@ + "*"@];
    proof {
        assert(views(variants@) =~= a);
    }
    if byte_len_at_least(tc.as_slice(), 3) {
        let mut head = if utf8_len_of(tc[0]) == 2 {
            string_of_range(tc.as_slice(), 0, 1)
        } else {
            string_of_range(tc.as_slice(), 0, 2)
        };
        push_str(&mut head, "*");
        let ghost before = variants@;
        variants.push(head);
        proof {
            assert(views(variants@) =~= views(before).push(head@));
        }
    }
    let ghost b = views(variants@);
    if fuzzy {
        match soundex(term.as_str()) {
            Some(sx) => {
                let sc = chars_of(sx.as_str());
                let mut v = str_to_string("sx");
                push_ascii_lower(&mut v, sc.as_slice());
                let ghost before = variants@;
                variants.push(v);
                proof {
                    assert(views(variants@) =~= views(before).push(v@));
                }
            },
            None => {},
        }
    }
    let ghost c = views(variants@);
    if fuzzy {
        match simple_metaphone(term.as_str()) {
            Some(mp) => {
                let mc = chars_of(mp.as_str());
                let mut v = str_to_string("mp");
                push_ascii_lower(&mut v, mc.as_slice());
                let ghost before = variants@;
                variants.push(v);
                proof {
                    assert(views(variants@) =~= views(before).push(v@));
                }
            },
            None => {},
        }
    }
    proof {
        assert(views(variants@) == term_variants(term@, fuzzy));
    }
    let mut group = str_to_string("(");
    let inner = join_strings(&variants, " OR ");
    push_str(&mut group, inner.as_str());
    push_str(&mut group, ")");
    group
}

/// Whether `build_person_match_query` is defined on `name`: every term of
/// three or more bytes can be cut after its second byte.
pub fn match_query_supported(name: &str) -> (r: bool)
    ensures
        r == match_query_defined(name@),
{
    let terms = search_terms(name);
    let mut i: usize = 0;
    while i < terms.len()
        invariant
            i <= terms@.len(),
            views(terms@) == search_terms_of(name@),
            forall|j: int| 0 <= j < i ==> #[trigger] splits_at_two(search_terms_of(name@)[j]),
        decreases terms@.len() - i,
    {
        let tc = chars_of(terms[i].as_str());
        proof {
            assert(views(terms@)[i as int] == terms@[i as int]@);
        }
        if byte_len_at_least(tc.as_slice(), 3) {
            let first = utf8_len_of(tc[0]);
            if !(first == 2 || (first == 1 && tc.len() >= 2 && utf8_len_of(tc[1]) == 1)) {
                proof {
                    assert(!splits_at_two(search_terms_of(name@)[i as int]));
                }
                return false;
            }
        }
        i = i + 1;
    }
    true
}

/// Builds the full-text match query for a person name (see `match_query_of`).
pub fn build_person_match_query(name: &str, fuzzy: bool) -> (r: String)
    requires
        match_query_defined(name@),
    ensures
        r@ == match_query_of(name@, fuzzy),
{
    let terms = search_terms(name);
    if terms.len() == 0 {
        return str_to_string("*");
    }
    let ghost tv = search_terms_of(name@);
    let mut groups: Vec<String> = Vec::new();
    let mut i: usize = 0;
    while i < terms.len()
        invariant
            i <= terms@.len(),
            views(terms@) == tv,
            tv == search_terms_of(name@),
            match_query_defined(name@),
            views(groups@) == tv.subrange(0, i as int).map_values(
                |t: Seq<char>| term_group(t, fuzzy),
            ),
        decreases terms@.len() - i,
    {
        proof {
            assert(views(terms@)[i as int] == terms@[i as int]@);
            assert(splits_at_two(tv[i as int]));
        }
        let g = term_group_text(&terms[i], fuzzy);
        let ghost before = groups@;
        groups.push(g);
        proof {
            assert(views(groups@) =~= views(before).push(g@));
            assert(tv.subrange(0, i + 1).map_values(|t: Seq<char>| term_group(t, fuzzy))
                =~= tv.subrange(0, i as int).map_values(|t: Seq<char>| term_group(t, fuzzy)).push(
                term_group(tv[i as int], fuzzy),
            ));
        }
        i = i + 1;
    }
    proof {
        assert(tv.subrange(0, i as int) =~= tv);
    }
    join_strings(&groups, " AND ")
}

/// What merge planning reads of a person: its id and its merge key.
#[derive(Debug, Clone, PartialEq, Eq)]
pub struct MergeRecord {
    pub id: EntityId,
    pub key: String,
}

/// An incoming person that matches exactly one existing person.
#[derive(Debug, Clone, PartialEq, Eq)]
pub struct MergeMatchRow {
    pub incoming_person_id: EntityId,
    pub matched_person_id: EntityId,
    pub key: String,
}

/// An incoming person whose key matches several existing persons.
#[derive(Debug, Clone, PartialEq, Eq)]
pub struct MergeAmbiguousRow {
    pub incoming_person_id: EntityId,
    pub candidate_person_ids: Vec<EntityId>,
    pub key: String,
}

/// Which incoming persons match, which are new, and which are ambiguous.
#[derive(Debug, Clone, PartialEq, Eq)]
pub struct MergePlan {
    pub matches: Vec<MergeMatchRow>,
    pub new_person_ids: Vec<EntityId>,
    pub ambiguous: Vec<MergeAmbiguousRow>,
}

/// A key made of '|' alone (nothing known of name and dates) matches nothing.
pub open spec fn blank_key(k: Seq<char>) -> bool {
    forall|i: int| 0 <= i < k.len() ==> k[i] == '|'
}

/// Ids of the existing persons with a non-blank key equal to `key`, in order.
pub open spec fn candidates_for(existing: Seq<MergeRecord>, key: Seq<char>) -> Seq<EntityId>
    decreases existing.len(),
{
    if existing.len() == 0 {
        Seq::empty()
    } else {
        let p = candidates_for(existing.drop_last(), key);
        let e = existing.last();
        if !blank_key(e.key@) && e.key@ == key {
            p.push(e.id)
        } else {
            p
        }
    }
}

/// How one incoming person is planned: 0 new, 1 matched, 2 ambiguous.
pub open spec fn merge_outcome(existing: Seq<MergeRecord>, r: MergeRecord) -> int {
    if blank_key(r.key@) || candidates_for(existing, r.key@).len() == 0 {
        0
    } else if candidates_for(existing, r.key@).len() == 1 {
        1
    } else {
        2
    }
}

/// The matches of a plan: (incoming id, matched id, key).
pub open spec fn planned_matches(existing: Seq<MergeRecord>, incoming: Seq<MergeRecord>) -> Seq<
    (EntityId, EntityId, Seq<char>),
>
    decreases incoming.len(),
{
    if incoming.len() == 0 {
        Seq::empty()
    } else {
        let p = planned_matches(existing, incoming.drop_last());
        let r = incoming.last();
        if merge_outcome(existing, r) == 1 {
            p.push((r.id, candidates_for(existing, r.key@)[0], r.key@))
        } else {
            p
        }
    }
}

/// The new persons of a plan.
pub open spec fn planned_new(existing: Seq<MergeRecord>, incoming: Seq<MergeRecord>) -> Seq<EntityId>
    decreases incoming.len(),
{
    if incoming.len() == 0 {
        Seq::empty()
    } else {
        let p = planned_new(existing, incoming.drop_last());
        let r = incoming.last();
        if merge_outcome(existing, r) == 0 {
            p.push(r.id)
        } else {
            p
        }
    }
}

/// The ambiguous persons of a plan: (incoming id, candidate ids, key).
pub open spec fn planned_ambiguous(existing: Seq<MergeRecord>, incoming: Seq<MergeRecord>) -> Seq<
    (EntityId, Seq<EntityId>, Seq<char>),
>
    decreases incoming.len(),
{
    if incoming.len() == 0 {
        Seq::empty()
    } else {
        let p = planned_ambiguous(existing, incoming.drop_last());
        let r = incoming.last();
        if merge_outcome(existing, r) == 2 {
            p.push((r.id, candidates_for(existing, r.key@), r.key@))
        } else {
            p
        }
    }
}

pub open spec fn match_rows_view(v: Seq<MergeMatchRow>) -> Seq<(EntityId, EntityId, Seq<char>)> {
    v.map_values(|m: MergeMatchRow| (m.incoming_person_id, m.matched_person_id, m.key@))
}

pub open spec fn ambiguous_rows_view(v: Seq<MergeAmbiguousRow>) -> Seq<
    (EntityId, Seq<EntityId>, Seq<char>),
> {
    v.map_values(|m: MergeAmbiguousRow| (m.incoming_person_id, m.candidate_person_ids@, m.key@))
}

fn is_blank_key(key: &str) -> (r: bool)
    ensures
        r == blank_key(key@),
{
    let cs = chars_of(key);
    let mut i: usize = 0;
    while i < cs.len()
        invariant
            i <= cs@.len(),
            cs@ == key@,
            forall|j: int| 0 <= j < i ==> cs@[j] == '|',
        decreases cs@.len() - i,
    {
        if cs[i] != '|' {
            return false;
        }
        i = i + 1;
    }
    true
}

fn key_candidates(existing: &[MergeRecord], key: &String) -> (r: Vec<EntityId>)
    ensures
        r@ == candidates_for(existing@, key@),
{
    let mut out: Vec<EntityId> = Vec::new();
    let mut i: usize = 0;
    while i < existing.len()
        invariant
            i <= existing@.len(),
            out@ == candidates_for(existing@.subrange(0, i as int), key@),
        decreases existing@.len() - i,
    {
        proof {
            assert(existing@.subrange(0, i + 1).drop_last() =~= existing@.subrange(0, i as int));
        }
        let e = &existing[i];
        if !is_blank_key(e.key.as_str()) && e.key == *key {
            out.push(e.id);
        }
        i = i + 1;
    }
    proof {
        assert(existing@.subrange(0, i as int) =~= existing@);
    }
    out
}

/// Plans a merge by key: an incoming person with a blank key, or whose key
/// no existing person has, is new; one existing person with its key makes a
/// match; several make it ambiguous.
pub fn build_merge_plan(existing: &[MergeRecord], incoming: &[MergeRecord]) -> (r: MergePlan)
    ensures
        match_rows_view(r.matches@) == planned_matches(existing@, incoming@),
        r.new_person_ids@ == planned_new(existing@, incoming@),
        ambiguous_rows_view(r.ambiguous@) == planned_ambiguous(existing@, incoming@),
{
    let mut matches: Vec<MergeMatchRow> = Vec::new();
    let mut new_person_ids: Vec<EntityId> = Vec::new();
    let mut ambiguous: Vec<MergeAmbiguousRow> = Vec::new();
    let mut i: usize = 0;
    while i < incoming.len()
        invariant
            i <= incoming@.len(),
            match_rows_view(matches@) == planned_matches(existing@, incoming@.subrange(0, i as int)),
            new_person_ids@ == planned_new(existing@, incoming@.subrange(0, i as int)),
            ambiguous_rows_view(ambiguous@) == planned_ambiguous(
                existing@,
                incoming@.subrange(0, i as int),
            ),
        decreases incoming@.len() - i,
    {
        let ghost pre = incoming@.subrange(0, i as int);
        proof {
            assert(incoming@.subrange(0, i + 1).drop_last() =~= pre);
        }
        let r = &incoming[i];
        if is_blank_key(r.key.as_str()) {
            new_person_ids.push(r.id);
        } else {
            let found = key_candidates(existing, &r.key);
            if found.len() == 0 {
                new_person_ids.push(r.id);
            } else if found.len() == 1 {
                let ghost before = matches@;
                matches.push(
                    MergeMatchRow {
                        incoming_person_id: r.id,
                        matched_person_id: found[0],
                        key: r.key.clone(),
                    },
                );
                proof {
                    assert(match_rows_view(matches@) =~= match_rows_view(before).push(
                        (r.id, found@[0], r.key@),
                    ));
                }
            } else {
                let ghost before = ambiguous@;
                ambiguous.push(
                    MergeAmbiguousRow {
                        incoming_person_id: r.id,
                        candidate_person_ids: found,
                        key: r.key.clone(),
                    },
                );
                proof {
                    assert(ambiguous_rows_view(ambiguous@) =~= ambiguous_rows_view(before).push(
                        (r.id, candidates_for(existing@, r.key@), r.key@),
                    ));
                }
            }
        }
        i = i + 1;
    }
    proof {
        assert(incoming@.subrange(0, i as int) =~= incoming@);
    }
    MergePlan { matches, new_person_ids, ambiguous }
}


proof fn lemma_soundex_scan(rest: Seq<char>, prev: char, acc: Seq<char>)
    requires
        1 <= acc.len() <= 4,
    ensures
        acc.len() <= soundex_scan(rest, prev, acc).len() <= 4,
        soundex_scan(rest, prev, acc)[0] == acc[0],
    decreases rest.len(),
{
    if acc.len() < 4 && rest.len() > 0 {
        let code = soundex_code(ascii_upper(rest[0]));
        if code == '0' {
            lemma_soundex_scan(rest.drop_first(), '0', acc);
        } else if code != prev {
            lemma_soundex_scan(rest.drop_first(), code, acc.push(code));
        } else {
            lemma_soundex_scan(rest.drop_first(), code, acc);
        }
    }
}

proof fn lemma_pad_zeros(acc: Seq<char>)
    requires
        1 <= acc.len() <= 4,
    ensures
        pad_zeros(acc).len() == 4,
        pad_zeros(acc)[0] == acc[0],
    decreases 4 - acc.len(),
{
    if acc.len() < 4 {
        lemma_pad_zeros(acc.push('0'));
    }
}

/// A Soundex code exists exactly when the text has an ASCII letter; it has
/// four characters, the first being that letter in upper case.
pub proof fn law_soundex_shape(s: Seq<char>)
    ensures
        soundex_of(s) is Some <==> ascii_letters(s).len() > 0,
        soundex_of(s) matches Some(c) ==> (c.len() == 4 && c[0] == ascii_upper(ascii_letters(s)[0])),
{
    let letters = ascii_letters(s);
    if letters.len() > 0 {
        let first = ascii_upper(letters[0]);
        lemma_soundex_scan(letters.drop_first(), soundex_code(first), seq![first]);
        lemma_pad_zeros(soundex_scan(letters.drop_first(), soundex_code(first), seq![first]));
    }
}

/// No character of a sequence repeats the one just before it.
pub open spec fn no_adjacent_repeats(s: Seq<char>) -> bool {
    forall|i: int| 0 < i < s.len() ==> #[trigger] s[i] != s[i - 1]
}

proof fn lemma_metaphone_scan(rest: Seq<char>, out: Seq<char>)
    requires
        no_adjacent_repeats(out),
    ensures
        no_adjacent_repeats(metaphone_scan(rest, out)),
    decreases rest.len(),
{
    if rest.len() > 0 {
        let (code, n) = metaphone_step(rest, out.len() == 0);
        let taken = if n == 2 && rest.len() >= 2 {
            2int
        } else {
            1int
        };
        let next = append_code(out, code);
        assert(no_adjacent_repeats(next)) by {
            assert forall|i: int| 0 < i < next.len() implies #[trigger] next[i] != next[i - 1] by {
                if i < out.len() {
                    assert(next[i] == out[i] && next[i - 1] == out[i - 1]);
                }
            }
        }
        lemma_metaphone_scan(rest.subrange(taken, rest.len() as int), next);
    }
}

/// A Metaphone code never writes the same code letter twice in a row.
pub proof fn law_metaphone_no_repeats(s: Seq<char>)
    ensures
        metaphone_of(s) matches Some(c) ==> no_adjacent_repeats(c),
{
    lemma_metaphone_scan(ascii_letters(s).map_values(|c: char| ascii_upper(c)), Seq::empty());
}

/// A merge plan puts each incoming person in exactly one of its three
/// lists: matched, new or ambiguous.
pub proof fn law_merge_plan_partition(existing: Seq<MergeRecord>, incoming: Seq<MergeRecord>)
    ensures
        planned_matches(existing, incoming).len() + planned_new(existing, incoming).len() + planned_ambiguous(
            existing,
            incoming,
        ).len() == incoming.len(),
    decreases incoming.len(),
{
    if incoming.len() > 0 {
        law_merge_plan_partition(existing, incoming.drop_last());
    }
}

} // verus!
