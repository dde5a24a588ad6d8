//! Reading mapping files: what counts as an empty file, which versions are
//! accepted, and building a mapping from its pairs.
use vstd::prelude::*;

use crate::sanitize::MappingFile;
use crate::strmap::{find_key, has_key, insert_sorted, lemma_map_of_at, lemma_sorted_distinct, map_of, pairs, sorted};

verus! {

/// `u8::is_ascii_whitespace`: space, tab, line feed, form feed, carriage
/// return.
pub open spec fn is_ascii_space(b: u8) -> bool {
    b == 0x20 || b == 0x09 || b == 0x0a || b == 0x0c || b == 0x0d
}

/// A file of white space only (an empty file among them).
pub open spec fn blank(bytes: Seq<u8>) -> bool {
    forall|i: int| 0 <= i < bytes.len() ==> is_ascii_space(#[trigger] bytes[i])
}

/// Whether the bytes of a mapping file are all ASCII white space, in which
/// case the file stands for an empty mapping.
pub fn is_blank(bytes: &[u8]) -> (r: bool)
    ensures
        r == blank(bytes@),
{
    let mut i: usize = 0;
    while i < bytes.len()
        invariant
            i <= bytes@.len(),
            forall|k: int| 0 <= k < i ==> is_ascii_space(#[trigger] bytes@[k]),
        decreases bytes@.len() - i,
    {
        let b = bytes[i];
        if !(b == 0x20 || b == 0x09 || b == 0x0a || b == 0x0c || b == 0x0d) {
            return false;
        }
        i = i + 1;
    }
    true
}

/// Why a mapping file is refused.
pub enum MappingError {
    UnsupportedVersion(u8),
}

/// Accepts a parsed mapping of version 1; any other version is refused.
pub fn check_mapping_version(mapping: MappingFile) -> (r: Result<MappingFile, MappingError>)
    ensures
        mapping.version == 1 ==> (r matches Ok(m) && m.version == mapping.version && m.entries@ == mapping.entries@),
        mapping.version != 1 ==> (r matches Err(MappingError::UnsupportedVersion(v)) && v == mapping.version),
{
    if mapping.version != 1 {
        let v = mapping.version;
        Err(MappingError::UnsupportedVersion(v))
    } else {
        Ok(mapping)
    }
}

/// The map that a list of pairs stands for when each pair is inserted in
/// turn (a later pair of a key replaces an earlier one).
pub open spec fn pairs_map(ps: Seq<(Seq<char>, Seq<char>)>) -> Map<Seq<char>, Seq<char>>
    decreases ps.len(),
{
    if ps.len() == 0 {
        Map::empty()
    } else {
        pairs_map(ps.drop_last()).insert(ps.last().0, ps.last().1)
    }
}

proof fn lemma_map_of_update(ps: Seq<(Seq<char>, Seq<char>)>, i: int, v: Seq<char>)
    requires
        sorted(ps),
        0 <= i < ps.len(),
    ensures
        sorted(ps.update(i, (ps[i].0, v))),
        map_of(ps.update(i, (ps[i].0, v))) == map_of(ps).insert(ps[i].0, v),
{
    let k = ps[i].0;
    let qs = ps.update(i, (k, v));
    assert(sorted(qs)) by {
        assert forall|a: int, b: int| 0 <= a < b < qs.len() implies crate::text::lex_lt(
            #[trigger] qs[a].0,
            #[trigger] qs[b].0,
        ) by {
            assert(qs[a].0 == ps[a].0);
            assert(qs[b].0 == ps[b].0);
        }
    }
    assert forall|key: Seq<char>| #[trigger] map_of(qs).contains_key(key) == map_of(ps).insert(k, v).contains_key(key) by {
        if has_key(qs, key) {
            let j = choose|j: int| 0 <= j < qs.len() && #[trigger] qs[j].0 == key;
            assert(ps[j].0 == key);
        }
        if has_key(ps, key) {
            let j = choose|j: int| 0 <= j < ps.len() && #[trigger] ps[j].0 == key;
            assert(qs[j].0 == key);
        }
        if key == k {
            assert(qs[i].0 == key);
        }
    }
    assert forall|key: Seq<char>| #[trigger] map_of(qs).contains_key(key) implies map_of(qs)[key] == map_of(ps).insert(
        k,
        v,
    )[key] by {
        let j = choose|j: int| 0 <= j < qs.len() && #[trigger] qs[j].0 == key;
        lemma_map_of_at(qs, j);
        if j == i {
            assert(key == k);
        } else {
            assert(ps[j] == qs[j]);
            lemma_map_of_at(ps, j);
            if key == k {
                lemma_sorted_distinct(ps, i, j);
            }
        }
    }
    assert(map_of(qs) =~= map_of(ps).insert(k, v));
}

impl MappingFile {
    /// A mapping of the given version holding the pairs, each inserted in
    /// turn.
    pub fn from_pairs(version: u8, items: Vec<(String, String)>) -> (r: MappingFile)
        ensures
            r.wf(),
            r.version == version,
            r.map() == pairs_map(pairs(items@)),
    {
        let ghost ps = pairs(items@);
        let mut entries: Vec<(String, String)> = Vec::new();
        let mut i: usize = 0;
        assert(map_of(pairs(entries@)) =~= pairs_map(ps.take(0)));
        while i < items.len()
            invariant
                i <= items@.len(),
                ps == pairs(items@),
                sorted(pairs(entries@)),
                map_of(pairs(entries@)) == pairs_map(ps.take(i as int)),
            decreases items@.len() - i,
        {
            assert(ps.take(i + 1).drop_last() =~= ps.take(i as int));
            let key = items[i].0.clone();
            let value = items[i].1.clone();
            match find_key(&entries, key.as_str()) {
                Some(p) => {
                    let ghost before = pairs(entries@);
                    proof {
                        lemma_map_of_update(before, p as int, value@);
                    }
                    entries.set(p, (key, value));
                    assert(pairs(entries@) =~= before.update(p as int, (before[p as int].0, ps[i as int].1)));
                },
                None => {
                    insert_sorted(&mut entries, key, value);
                },
            }
            i = i + 1;
        }
        assert(ps.take(i as int) =~= ps);
        MappingFile { version, entries }
    }
}

} // verus!
