//! Assertion status, evidence type, sandbox status, and the idempotency key
//! of an assertion's factual content.
use crate::evidence::CitationRef;
use crate::gedcom::sources::value_or;
use crate::text::{
    join, lemma_text_less_irreflexive, lemma_text_less_total, lemma_text_less_transitive, new_string, push_char,
    push_str, text_before, text_less, views,
};
use crate::types::{hex_digit, uuid_hyphenated_string, uuid_hyphenated_text, EntityId};
use vstd::prelude::*;

verus! {

#[derive(Debug, Clone, Copy, PartialEq, Eq, Structural, Default)]
pub enum AssertionStatus {
    #[default]
    Confirmed,
    Proposed,
    Disputed,
    Rejected,
}

#[derive(Debug, Clone, Copy, PartialEq, Eq, Structural, Default)]
pub enum EvidenceType {
    #[default]
    Direct,
    Indirect,
    Negative,
}

#[derive(Debug, Clone, Copy, PartialEq, Eq, Structural, Default)]
pub enum SandboxStatus {
    #[default]
    Active,
    Promoted,
    Discarded,
}

/// A sandbox: a named space of tentative assertions, possibly branched from
/// another sandbox.
#[derive(Debug, Clone, PartialEq, Eq)]
pub struct Sandbox {
    pub id: EntityId,
    pub name: String,
    pub description: Option<String>,
    /// When the sandbox was made, in milliseconds since the Unix epoch.
    pub created_at: i64,
    pub parent_sandbox: Option<EntityId>,
    pub status: SandboxStatus,
}


/// How `serde_json` writes one character of a string: a double quote and a
/// backslash behind a backslash; backspace, tab, line feed, form feed and
/// carriage return as `\b`, `\t`, `\n`, `\f`, `\r`; the other characters
/// below U+0020 as `\u00` and two lower-case hexadecimal digits; every other
/// character as it is.
pub open spec fn json_escape_char(c: char) -> Seq<char> {
    let n = c as u32;
    if c == '"' {
        seq!['\\', '"']
    } else if c == '\\' {
        seq!['\\', '\\']
    } else if n == 8 {
        seq!['\\', 'b']
    } else if n == 9 {
        seq!['\\', 't']
    } else if n == 10 {
        seq!['\\', 'n']
    } else if n == 12 {
        seq!['\\', 'f']
    } else if n == 13 {
        seq!['\\', 'r']
    } else if n < 0x20 {
        seq!['\\', 'u', '0', '0', hex_digit((n / 16) as int), hex_digit((n % 16) as int)]
    } else {
        seq![c]
    }
}

/// The characters of a string as `serde_json` writes them, escaped.
pub open spec fn json_escaped(s: Seq<char>) -> Seq<char>
    decreases s.len(),
{
    if s.len() == 0 {
        Seq::empty()
    } else {
        json_escaped(s.drop_last()) + json_escape_char(s.last())
    }
}

/// The JSON text `serde_json` writes for a string: the escaped string in
/// double quotes.
pub open spec fn json_quoted(s: Seq<char>) -> Seq<char> {
    seq!['"'] + json_escaped(s) + seq!['"']
}

/// `serde_json::to_string` on a string slice, which cannot fail for a string.
/// Claimed: the result is `json_quoted` of the text, as `format_escaped_str`
/// and its `ESCAPE` table in serde_json's `ser.rs` write it.
#[verifier::external_body]
fn json_string(s: &str) -> (r: String)
    ensures
        r@ == json_quoted(s@),
{
    serde_json::to_string(s).unwrap_or_default()
}

/// The SHA-256 digest of a byte sequence.
pub uninterp spec fn sha256_digest(data: Seq<u8>) -> Seq<u8>;

/// `sha2::Sha256::digest`. Claimed: the 32-byte digest, named
/// `sha256_digest`, depends on the bytes alone.
#[verifier::external_body]
fn sha256(data: &[u8]) -> (r: Vec<u8>)
    ensures
        r@ == sha256_digest(data@),
        r@.len() == 32,
{
    <sha2::Sha256 as sha2::Digest>::digest(data).to_vec()
}

/// Bytes as lower-case hexadecimal, two digits each.
pub open spec fn hex_text(bs: Seq<u8>) -> Seq<char>
    decreases bs.len(),
{
    if bs.len() == 0 {
        Seq::empty()
    } else {
        hex_text(bs.drop_last()) + seq![hex_digit((bs.last() / 16) as int), hex_digit((bs.last() % 16) as int)]
    }
}

fn hex_char(n: u8) -> (r: char)
    requires
        n < 16,
    ensures
        r == hex_digit(n as int),
{
    let digits = ['0', '1', '2', '3', '4', '5', '6', '7', '8', '9', 'a', 'b', 'c', 'd', 'e', 'f'];
    proof {
        assert(digits@ =~= seq!['0', '1', '2', '3', '4', '5', '6', '7', '8', '9', 'a', 'b', 'c', 'd', 'e', 'f']);
    }
    digits[n as usize]
}

pub fn hex_string(bs: &[u8]) -> (r: String)
    ensures
        r@ == hex_text(bs@),
{
    let mut out = new_string();
    let mut i: usize = 0;
    while i < bs.len()
        invariant
            i <= bs@.len(),
            out@ == hex_text(bs@.subrange(0, i as int)),
        decreases bs@.len() - i,
    {
        proof {
            assert(bs@.subrange(0, i + 1).drop_last() =~= bs@.subrange(0, i as int));
        }
        let b = bs[i];
        let ghost before = out@;
        push_char(&mut out, hex_char(b / 16));
        push_char(&mut out, hex_char(b % 16));
        proof {
            assert(out@ =~= before + seq![hex_digit((b / 16) as int), hex_digit((b % 16) as int)]);
        }
        i = i + 1;
    }
    proof {
        assert(bs@.subrange(0, i as int) =~= bs@);
    }
    out
}

/// The key citations are ordered by: the citation id's text, then the note
/// (empty when there is none).
pub open spec fn citation_key(c: CitationRef) -> (Seq<char>, Seq<char>) {
    (uuid_hyphenated_text(c.citation_id.0), value_or(c.note.deep_view(), Seq::empty()))
}

/// Lexicographic order of citation keys.
pub open spec fn key_less(a: (Seq<char>, Seq<char>), b: (Seq<char>, Seq<char>)) -> bool {
    text_less(a.0, b.0) || (a.0 == b.0 && text_less(a.1, b.1))
}

/// The first position from `i` on whose citation comes after the key `k`.
pub open spec fn first_after(s: Seq<CitationRef>, k: (Seq<char>, Seq<char>), i: int) -> int
    decreases s.len() - i,
{
    if i < 0 || i >= s.len() {
        s.len() as int
    } else if key_less(k, citation_key(s[i])) {
        i
    } else {
        first_after(s, k, i + 1)
    }
}

proof fn lemma_first_after_bounds(s: Seq<CitationRef>, k: (Seq<char>, Seq<char>), i: int)
    requires
        0 <= i <= s.len(),
    ensures
        i <= first_after(s, k, i) <= s.len(),
    decreases s.len() - i,
{
    if i < s.len() && !key_less(k, citation_key(s[i])) {
        lemma_first_after_bounds(s, k, i + 1);
    }
}

/// Citations sorted stably by key: each one goes before the first that comes
/// after it, so citations with equal keys keep their order.
pub open spec fn sorted_citations(s: Seq<CitationRef>) -> Seq<CitationRef>
    decreases s.len(),
{
    if s.len() == 0 {
        Seq::empty()
    } else {
        let p = sorted_citations(s.drop_last());
        p.insert(first_after(p, citation_key(s.last()), 0), s.last())
    }
}

proof fn lemma_sorted_len(s: Seq<CitationRef>)
    ensures
        sorted_citations(s).len() == s.len(),
    decreases s.len(),
{
    if s.len() > 0 {
        lemma_sorted_len(s.drop_last());
        let p = sorted_citations(s.drop_last());
        lemma_first_after_bounds(p, citation_key(s.last()), 0);
    }
}

fn note_text(c: &CitationRef) -> (r: String)
    ensures
        r@ == citation_key(*c).1,
{
    match &c.note {
        Some(n) => n.clone(),
        None => new_string(),
    }
}

fn citation_before(a: &CitationRef, b: &CitationRef) -> (r: bool)
    ensures
        r == key_less(citation_key(*a), citation_key(*b)),
{
    let ai = uuid_hyphenated_string(a.citation_id.0);
    let bi = uuid_hyphenated_string(b.citation_id.0);
    if text_before(&ai, &bi) {
        return true;
    }
    let an = note_text(a);
    let bn = note_text(b);
    crate::text::str_eq(ai.as_str(), bi.as_str()) && text_before(&an, &bn)
}

pub fn sort_citations(cs: &[CitationRef]) -> (r: Vec<CitationRef>)
    ensures
        r@ == sorted_citations(cs@),
{
    let mut out: Vec<CitationRef> = Vec::new();
    let mut i: usize = 0;
    while i < cs.len()
        invariant
            i <= cs@.len(),
            out@ == sorted_citations(cs@.subrange(0, i as int)),
        decreases cs@.len() - i,
    {
        proof {
            assert(cs@.subrange(0, i + 1).drop_last() =~= cs@.subrange(0, i as int));
            lemma_sorted_len(cs@.subrange(0, i as int));
        }
        let x = cs[i].clone();
        let ghost k = citation_key(x);
        let mut pos: usize = 0;
        while pos < out.len() && !citation_before(&x, &out[pos])
            invariant
                pos <= out@.len(),
                first_after(out@, k, 0) == first_after(out@, k, pos as int),
                k == citation_key(x),
            decreases out@.len() - pos,
        {
            pos = pos + 1;
        }
        proof {
            assert(first_after(out@, k, pos as int) == pos);
        }
        out.insert(pos, x);
        i = i + 1;
    }
    proof {
        assert(cs@.subrange(0, i as int) =~= cs@);
    }
    out
}

/// The JSON object of one citation: its id and its note (`null` when none).
pub open spec fn citation_json(c: CitationRef) -> Seq<char> {
    "{\"citation_id\":"@ + json_quoted(uuid_hyphenated_text(c.citation_id.0)) + ",\"note\":"@ + match c.note {
        Some(n) => json_quoted(n@),
        None => "null"@,
    } + "}"@
}

/// The JSON payload whose digest is the idempotency key: the entity id, the
/// field, the value (given as its JSON text) and the citations in key order,
/// in that order and without whitespace.
pub open spec fn idempotency_payload(entity_id: EntityId, field: Seq<char>, value_json: Seq<char>, cs: Seq<CitationRef>) -> Seq<char> {
    "{\"entity_id\":"@ + json_quoted(uuid_hyphenated_text(entity_id.0)) + ",\"field\":"@ + json_quoted(field)
        + ",\"value\":"@ + value_json + ",\"source_citations\":["@ + join(
        sorted_citations(cs).map_values(|c: CitationRef| citation_json(c)),
        ","@,
    ) + "]}"@
}

/// The idempotency key: the SHA-256 digest of the payload's UTF-8 bytes, in
/// lower-case hexadecimal.
pub open spec fn idempotency_key(entity_id: EntityId, field: Seq<char>, value_json: Seq<char>, cs: Seq<CitationRef>) -> Seq<char> {
    hex_text(sha256_digest(vstd::utf8::encode_utf8(idempotency_payload(entity_id, field, value_json, cs))))
}

fn citation_json_string(c: &CitationRef) -> (r: String)
    ensures
        r@ == citation_json(*c),
{
    let mut out = str_to_string_lit("{\"citation_id\":");
    let id = uuid_hyphenated_string(c.citation_id.0);
    let q = json_string(id.as_str());
    push_str(&mut out, q.as_str());
    push_str(&mut out, ",\"note\":");
    match &c.note {
        Some(n) => {
            let qn = json_string(n.as_str());
            push_str(&mut out, qn.as_str());
        },
        None => push_str(&mut out, "null"),
    }
    push_str(&mut out, "}");
    out
}

fn str_to_string_lit(s: &str) -> (r: String)
    ensures
        r@ == s@,
{
    crate::text::str_to_string(s)
}

/// Deterministic key of an assertion's factual content: the entity, the
/// field, the value (as its JSON text) and the citations, whatever their
/// order; confidence, status, evidence type, proposer, approval fields and times
/// are left out.
pub fn compute_assertion_idempotency_key(
    entity_id: EntityId,
    field: &str,
    value_json: &str,
    source_citations: &[CitationRef],
) -> (r: String)
    ensures
        r@ == idempotency_key(entity_id, field@, value_json@, source_citations@),
{
    let sorted = sort_citations(source_citations);
    let mut parts: Vec<String> = Vec::new();
    let mut i: usize = 0;
    while i < sorted.len()
        invariant
            i <= sorted@.len(),
            views(parts@) == sorted@.subrange(0, i as int).map_values(|c: CitationRef| citation_json(c)),
        decreases sorted@.len() - i,
    {
        let ghost before = views(parts@);
        parts.push(citation_json_string(&sorted[i]));
        proof {
            assert(views(parts@) =~= before.push(citation_json(sorted@[i as int])));
            assert(sorted@.subrange(0, i + 1).map_values(|c: CitationRef| citation_json(c)) =~= sorted@.subrange(
                0,
                i as int,
            ).map_values(|c: CitationRef| citation_json(c)).push(citation_json(sorted@[i as int])));
        }
        i = i + 1;
    }
    proof {
        assert(sorted@.subrange(0, i as int) =~= sorted@);
    }
    let mut payload = str_to_string_lit("{\"entity_id\":");
    let id = uuid_hyphenated_string(entity_id.0);
    let qid = json_string(id.as_str());
    push_str(&mut payload, qid.as_str());
    push_str(&mut payload, ",\"field\":");
    let qf = json_string(field);
    push_str(&mut payload, qf.as_str());
    push_str(&mut payload, ",\"value\":");
    push_str(&mut payload, value_json);
    push_str(&mut payload, ",\"source_citations\":[");
    let joined = crate::text::join_strings(&parts, ",");
    push_str(&mut payload, joined.as_str());
    push_str(&mut payload, "]}");
    let digest = sha256(payload.as_str().as_bytes());
    hex_string(digest.as_slice())
}

proof fn lemma_key_less_irreflexive(a: (Seq<char>, Seq<char>))
    ensures
        !key_less(a, a),
{
    lemma_text_less_irreflexive(a.0);
    lemma_text_less_irreflexive(a.1);
}

proof fn lemma_key_less_transitive(a: (Seq<char>, Seq<char>), b: (Seq<char>, Seq<char>), c: (Seq<char>, Seq<char>))
    requires
        key_less(a, b),
        key_less(b, c),
    ensures
        key_less(a, c),
{
    if text_less(a.0, b.0) && text_less(b.0, c.0) {
        lemma_text_less_transitive(a.0, b.0, c.0);
    } else if a.0 == b.0 && b.0 == c.0 {
        lemma_text_less_transitive(a.1, b.1, c.1);
    }
}

proof fn lemma_key_less_total(a: (Seq<char>, Seq<char>), b: (Seq<char>, Seq<char>))
    requires
        a != b,
    ensures
        key_less(a, b) || key_less(b, a),
{
    if a.0 != b.0 {
        lemma_text_less_total(a.0, b.0);
    } else {
        lemma_text_less_total(a.1, b.1);
    }
}

proof fn lemma_key_less_asymmetric(a: (Seq<char>, Seq<char>), b: (Seq<char>, Seq<char>))
    requires
        key_less(a, b),
    ensures
        !key_less(b, a),
{
    if key_less(b, a) {
        lemma_key_less_transitive(a, b, a);
        lemma_key_less_irreflexive(a);
    }
}

/// Citations in key order: none comes after a later one.
pub open spec fn sorted_by_key(s: Seq<CitationRef>) -> bool {
    forall|i: int, j: int|
        0 <= i < j < s.len() ==> !key_less(#[trigger] citation_key(s[j]), #[trigger] citation_key(s[i]))
}

proof fn lemma_first_after(s: Seq<CitationRef>, k: (Seq<char>, Seq<char>), i: int)
    requires
        0 <= i <= s.len(),
    ensures
        forall|j: int| i <= j < first_after(s, k, i) ==> !key_less(k, #[trigger] citation_key(s[j])),
        first_after(s, k, i) < s.len() ==> key_less(k, citation_key(s[first_after(s, k, i)])),
    decreases s.len() - i,
{
    lemma_first_after_bounds(s, k, i);
    if i < s.len() && !key_less(k, citation_key(s[i])) {
        lemma_first_after(s, k, i + 1);
    }
}

/// Stable sorting by key puts the citations in key order and keeps each of them.
proof fn lemma_sorted_citations(s: Seq<CitationRef>)
    ensures
        sorted_by_key(sorted_citations(s)),
        sorted_citations(s).to_multiset() == s.to_multiset(),
    decreases s.len(),
{
    broadcast use vstd::seq_lib::to_multiset_build, vstd::seq_lib::to_multiset_insert;

    if s.len() == 0 {
        assert(sorted_citations(s) =~= s);
    } else {
        let x = s.last();
        let k = citation_key(x);
        let p = sorted_citations(s.drop_last());
        lemma_sorted_citations(s.drop_last());
        lemma_first_after_bounds(p, k, 0);
        lemma_first_after(p, k, 0);
        let pos = first_after(p, k, 0);
        let n = p.insert(pos, x);
        assert(n == sorted_citations(s));
        assert(s.drop_last().push(x) =~= s);
        assert forall|i: int, j: int| 0 <= i < j < n.len() implies !key_less(
            #[trigger] citation_key(n[j]),
            #[trigger] citation_key(n[i]),
        ) by {
            if j < pos {
                assert(n[i] == p[i] && n[j] == p[j]);
            } else if j == pos {
                assert(n[j] == x);
                assert(n[i] == p[i]);
            } else if i > pos {
                assert(n[i] == p[i - 1] && n[j] == p[j - 1]);
            } else if i == pos {
                assert(n[i] == x);
                assert(n[j] == p[j - 1]);
                let kp = citation_key(p[pos]);
                assert(key_less(k, kp));
                if j - 1 > pos {
                    assert(!key_less(citation_key(p[j - 1]), kp));
                    if kp == citation_key(p[j - 1]) {
                    } else {
                        lemma_key_less_total(kp, citation_key(p[j - 1]));
                        lemma_key_less_transitive(k, kp, citation_key(p[j - 1]));
                    }
                }
                lemma_key_less_asymmetric(k, citation_key(p[j - 1]));
            } else {
                assert(n[i] == p[i] && n[j] == p[j - 1]);
            }
        }
    }
}

/// Two key-ordered sequences with the same citations, where no two different
/// citations share a key, are the same sequence.
proof fn lemma_sorted_unique(a: Seq<CitationRef>, b: Seq<CitationRef>)
    requires
        sorted_by_key(a),
        sorted_by_key(b),
        a.to_multiset() == b.to_multiset(),
        keys_distinguish(a),
    ensures
        a == b,
    decreases a.len(),
{
    broadcast use vstd::seq_lib::to_multiset_contains, vstd::seq_lib::to_multiset_remove, vstd::seq_lib::to_multiset_len;

    if a.len() == 0 {
        assert(b.to_multiset().len() == 0);
        assert(a =~= b);
    } else {
        assert(a.to_multiset().count(a[0]) > 0);
        assert(b.len() > 0);
        assert(b.to_multiset().count(b[0]) > 0);
        assert(b.contains(a[0]));
        assert(a.contains(b[0]));
        let ja = choose|j: int| 0 <= j < b.len() && b[j] == a[0];
        let jb = choose|j: int| 0 <= j < a.len() && a[j] == b[0];
        let ka = citation_key(a[0]);
        let kb = citation_key(b[0]);
        if ja > 0 {
            assert(!key_less(citation_key(b[ja]), citation_key(b[0])));
        } else {
            lemma_key_less_irreflexive(ka);
        }
        if jb > 0 {
            assert(!key_less(citation_key(a[jb]), citation_key(a[0])));
        } else {
            lemma_key_less_irreflexive(kb);
        }
        if ka != kb {
            lemma_key_less_total(ka, kb);
        }
        assert(a[0] == b[0]);
        let ar = a.remove(0);
        let br = b.remove(0);
        assert(ar =~= a.drop_first());
        assert(br =~= b.drop_first());
        assert(ar.to_multiset() == br.to_multiset());
        assert forall|i: int, j: int| 0 <= i < j < ar.len() implies !key_less(
            #[trigger] citation_key(ar[j]),
            #[trigger] citation_key(ar[i]),
        ) by {
            assert(ar[i] == a[i + 1] && ar[j] == a[j + 1]);
        }
        assert forall|i: int, j: int| 0 <= i < j < br.len() implies !key_less(
            #[trigger] citation_key(br[j]),
            #[trigger] citation_key(br[i]),
        ) by {
            assert(br[i] == b[i + 1] && br[j] == b[j + 1]);
        }
        assert forall|x: CitationRef, y: CitationRef|
            ar.contains(x) && ar.contains(y) && #[trigger] citation_key(x) == #[trigger] citation_key(y) implies x
            == y by {
            let ix = choose|i: int| 0 <= i < ar.len() && ar[i] == x;
            let iy = choose|i: int| 0 <= i < ar.len() && ar[i] == y;
            assert(a[ix + 1] == x && a[iy + 1] == y);
        }
        lemma_sorted_unique(ar, br);
        assert(a =~= seq![a[0]] + ar);
        assert(b =~= seq![b[0]] + br);
    }
}

/// No two different citations of `s` share a key (the id's text and the note,
/// empty when there is none).
pub open spec fn keys_distinguish(s: Seq<CitationRef>) -> bool {
    forall|x: CitationRef, y: CitationRef|
        s.contains(x) && s.contains(y) && #[trigger] citation_key(x) == #[trigger] citation_key(y) ==> x == y
}

/// The idempotency key does not depend on the order of the citations: two
/// lists with the same citations, no two of which share an id and a note text,
/// give the same key.
pub proof fn law_idempotency_key_ignores_citation_order(
    entity_id: EntityId,
    field: Seq<char>,
    value_json: Seq<char>,
    a: Seq<CitationRef>,
    b: Seq<CitationRef>,
)
    requires
        a.to_multiset() == b.to_multiset(),
        keys_distinguish(a),
    ensures
        idempotency_key(entity_id, field, value_json, a) == idempotency_key(entity_id, field, value_json, b),
{
    broadcast use vstd::seq_lib::to_multiset_contains;

    lemma_sorted_citations(a);
    lemma_sorted_citations(b);
    let sa = sorted_citations(a);
    let sb = sorted_citations(b);
    assert forall|x: CitationRef, y: CitationRef|
        sa.contains(x) && sa.contains(y) && #[trigger] citation_key(x) == #[trigger] citation_key(y) implies x
        == y by {
        assert(sa.to_multiset().count(x) > 0);
        assert(sa.to_multiset().count(y) > 0);
        assert(a.contains(x) && a.contains(y));
    }
    lemma_sorted_unique(sa, sb);
}

} // verus!
