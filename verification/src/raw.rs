//! Vendor-specific GEDCOM text kept on an entity for round-trip export.
use crate::text::str_eq;
use vstd::prelude::*;

verus! {

/// Key/value text preserved from GEDCOM; keys are unique, and inserting an
/// existing key replaces its value.
#[derive(Debug, Clone, PartialEq, Eq, Default)]
pub struct RawGedcom {
    pub entries: Vec<(String, String)>,
}

/// Views of the entries.
pub open spec fn raw_entries(r: RawGedcom) -> Seq<(Seq<char>, Seq<char>)> {
    r.entries@.map_values(|e: (String, String)| (e.0@, e.1@))
}

/// Whether no key occurs twice.
pub open spec fn keys_unique(s: Seq<(Seq<char>, Seq<char>)>) -> bool {
    forall|i: int, j: int| 0 <= i < j < s.len() ==> s[i].0 != s[j].0
}

/// The value stored under `key`, if any.
pub open spec fn raw_lookup(s: Seq<(Seq<char>, Seq<char>)>, key: Seq<char>) -> Option<Seq<char>>
    decreases s.len(),
{
    if s.len() == 0 {
        None
    } else if s.last().0 == key {
        Some(s.last().1)
    } else {
        raw_lookup(s.drop_last(), key)
    }
}

/// The entries after inserting `key` with `value`: the value replaces that of
/// an existing key in place, or the pair is appended.
pub open spec fn raw_insert(s: Seq<(Seq<char>, Seq<char>)>, key: Seq<char>, value: Seq<char>) -> Seq<
    (Seq<char>, Seq<char>),
> {
    if exists|i: int| 0 <= i < s.len() && s[i].0 == key {
        s.update(choose|i: int| 0 <= i < s.len() && s[i].0 == key, (key, value))
    } else {
        s.push((key, value))
    }
}

impl RawGedcom {
    pub fn new() -> (r: Self)
        ensures
            raw_entries(r) == Seq::<(Seq<char>, Seq<char>)>::empty(),
    {
        let r = RawGedcom { entries: Vec::new() };
        proof {
            assert(raw_entries(r) =~= Seq::<(Seq<char>, Seq<char>)>::empty());
        }
        r
    }

    /// Stores `value` under `key`, replacing an existing value.
    pub fn insert(&mut self, key: String, value: String)
        requires
            keys_unique(raw_entries(*old(self))),
        ensures
            keys_unique(raw_entries(*final(self))),
            raw_entries(*final(self)) == raw_insert(raw_entries(*old(self)), key@, value@),
    {
        let ghost s = raw_entries(*self);
        let mut i: usize = 0;
        while i < self.entries.len()
            invariant
                i <= self.entries@.len(),
                s == raw_entries(*self),
                s == raw_entries(*old(self)),
                keys_unique(s),
                forall|j: int| 0 <= j < i ==> s[j].0 != key@,
            decreases self.entries@.len() - i,
        {
            if str_eq(self.entries[i].0.as_str(), key.as_str()) {
                let k = key;
                self.entries.set(i, (k, value));
                proof {
                    assert(s[i as int].0 == key@);
                    assert(exists|w: int| 0 <= w < s.len() && s[w].0 == key@);
                    let w = choose|w: int| 0 <= w < s.len() && s[w].0 == key@;
                    assert(w == i) by {
                        if w != i {
                            if w < i {
                            } else {
                                assert(s[i as int].0 != s[w].0);
                            }
                        }
                    }
                    assert(raw_entries(*self) =~= s.update(i as int, (key@, value@)));
                    assert(raw_insert(s, key@, value@) == s.update(i as int, (key@, value@)));
                    assert(keys_unique(raw_entries(*self))) by {
                        let t = raw_entries(*self);
                        assert forall|a: int, b: int| 0 <= a < b < t.len() implies t[a].0 != t[b].0 by {
                            if a != i && b != i {
                                assert(s[a].0 != s[b].0);
                            } else if a == i {
                                assert(s[a].0 != s[b].0);
                            } else {
                                assert(s[a].0 != s[b].0);
                            }
                        }
                    }
                }
                return;
            }
            i = i + 1;
        }
        self.entries.push((key, value));
        proof {
            assert(raw_entries(*self) =~= s.push((key@, value@)));
        }
    }

    /// The value stored under `key`.
    pub fn get(&self, key: &str) -> (r: Option<&String>)
        ensures
            match r {
                Some(v) => raw_lookup(raw_entries(*self), key@) == Some(v@),
                None => raw_lookup(raw_entries(*self), key@) is None,
            },
    {
        let ghost s = raw_entries(*self);
        let mut i = self.entries.len();
        proof {
            assert(s.subrange(0, i as int) =~= s);
        }
        while i > 0
            invariant
                i <= self.entries@.len(),
                s == raw_entries(*self),
                raw_lookup(s, key@) == raw_lookup(s.subrange(0, i as int), key@),
            decreases i,
        {
            proof {
                let t = s.subrange(0, i as int);
                assert(t.last() == s[i - 1]);
                assert(t.drop_last() =~= s.subrange(0, i - 1));
            }
            if str_eq(self.entries[i - 1].0.as_str(), key) {
                return Some(&self.entries[i - 1].1);
            }
            i = i - 1;
        }
        None
    }

    pub fn len(&self) -> (r: usize)
        ensures
            r == raw_entries(*self).len(),
    {
        self.entries.len()
    }
}

} // verus!
