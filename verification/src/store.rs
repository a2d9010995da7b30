//! The store itself: a mapping from string keys to string values with
//! unique keys, kept as a vector of pairs.

use vstd::prelude::*;

use crate::codec::apply_line;
use crate::codec::apply_lines;
use crate::codec::distinct_keys;
use crate::codec::has_key;
use crate::codec::lemma_apply_lines_cons;
use crate::codec::lemma_find_char_absent;
use crate::codec::lemma_find_char_at;
use crate::codec::lemma_serialize_push;
use crate::codec::lemma_split_lines_step;
use crate::codec::lemma_split_lines_whole;
use crate::codec::map_of_entries;
use crate::codec::parse_contents;
use crate::codec::serialize_entries;
use crate::codec::split_lines;

verus! {

/// What an operation on the store can fail with: a lookup or removal of
/// an absent key, carrying that key, or a failure of the backing file.
/// The store itself never raises `IoError`; the surrounding program does,
/// when reading or rewriting the backing file fails.
#[derive(Debug)]
pub enum StoreError {
    KeyNotFound(String),
    IoError,
}

impl StoreError {
    /// A diagnostic line for the error, naming the missing key.
    pub fn message(&self) -> (r: String)
        ensures
            match self {
                StoreError::KeyNotFound(k) => r@ == "Key not found: "@ + k@,
                StoreError::IoError => r@ == "IO error"@,
            },
    {
        match self {
            StoreError::KeyNotFound(k) => {
                let mut s = "Key not found: ".to_owned();
                s.append(k.as_str());
                s
            },
            StoreError::IoError => "IO error".to_owned(),
        }
    }
}

/// A string-to-string mapping with unique keys, bound to the path of the
/// file that mirrors it.
#[derive(Debug)]
pub struct KeyValueStore {
    data: Vec<(String, String)>,
    file_path: String,
}

impl KeyValueStore {
    /// The store's entries, as character sequences, in storage order.
    pub closed spec fn entries(&self) -> Seq<(Seq<char>, Seq<char>)> {
        self.data@.map_values(|p: (String, String)| (p.0@, p.1@))
    }

    /// The path of the backing file.
    pub closed spec fn path_view(&self) -> Seq<char> {
        self.file_path@
    }

    /// The store is well formed when no two entries share a key.
    pub open spec fn wf(&self) -> bool {
        distinct_keys(self.entries())
    }

    /// The mapping the store holds.
    pub open spec fn view(&self) -> Map<Seq<char>, Seq<char>> {
        map_of_entries(self.entries())
    }

    /// The index of the entry carrying `key`, if one does.
    fn find_index(&self, key: &str) -> (r: Option<usize>)
        ensures
            match r {
                Some(i) => i < self.entries().len() && self.entries()[i as int].0 == key@,
                None => !has_key(self.entries(), key@),
            },
    {
        let n = self.data.len();
        let mut i: usize = 0;
        while i < n
            invariant
                n == self.data.len(),
                i <= n,
                forall|j: int| 0 <= j < i ==> self.entries()[j].0 != key@,
            decreases n - i,
        {
            if str_eq(self.data[i].0.as_str(), key) {
                return Some(i);
            }
            i = i + 1;
        }
        None
    }

    /// Looks the key up in the mapping; no part of the backing file is
    /// touched. Returns the stored value, or `KeyNotFound` carrying the
    /// key when it is absent.
    pub fn get<'a>(&'a self, key: &str) -> (r: Result<&'a String, StoreError>)
        requires
            self.wf(),
        ensures
            match r {
                Ok(v) => self@.contains_key(key@) && v@ == self@[key@],
                Err(e) => !self@.contains_key(key@) && (e matches StoreError::KeyNotFound(k)
                    && k@ == key@),
            },
    {
        match self.find_index(key) {
            Some(i) => {
                proof {
                    lemma_entries_key(self.entries(), i as int);
                }
                Ok(&self.data[i].1)
            },
            None => {
                proof {
                    lemma_entries_absent(self.entries(), key@);
                }
                Err(StoreError::KeyNotFound(key.to_owned()))
            },
        }
    }

    /// Inserts or overwrites `key -> value` in the mapping,
    /// unconditionally. The caller is expected to rewrite the backing
    /// file with `save` afterwards.
    pub fn set(&mut self, key: String, value: String)
        requires
            old(self).wf(),
        ensures
            final(self).wf(),
            final(self)@ == old(self)@.insert(key@, value@),
            final(self).path_view() == old(self).path_view(),
    {
        let ghost es0 = self.entries();
        let idx = self.find_index(key.as_str());
        match idx {
            Some(i) => {
                proof {
                    lemma_entries_remove(es0, i as int);
                }
                let _ = self.data.remove(i);
                proof {
                    assert(self.entries() =~= es0.remove(i as int));
                }
            },
            None => {
                proof {
                    lemma_entries_absent(es0, key@);
                }
            },
        }
        let ghost es1 = self.entries();
        self.data.push((key, value));
        proof {
            assert(self.entries() =~= es1.push((key@, value@)));
            assert(self.entries().drop_last() =~= es1);
            // the pushed key is fresh, so the keys stay distinct
            assert forall|p: int, q: int|
                0 <= p < q < self.entries().len() implies self.entries()[p].0
                != self.entries()[q].0 by {
                if q < es1.len() {
                    assert(self.entries()[p] == es1[p]);
                    assert(self.entries()[q] == es1[q]);
                } else {
                    assert(self.entries()[p] == es1[p]);
                    assert(self.entries()[q] == (key@, value@));
                    assert(!has_key(es1, key@));
                }
            }
            match idx {
                Some(i) => {
                    assert(self@ =~= old(self)@.insert(key@, value@));
                },
                None => {
                    assert(self@ =~= old(self)@.insert(key@, value@));
                },
            }
        }
    }

    /// Parses the backing file's text and inserts its entries, line by
    /// line: each line splits at its first `:` into a key and a value,
    /// a later line overriding an earlier one with the same key, and a
    /// line without a `:` contributing nothing. Entries already in the
    /// mapping stay unless a line overrides them.
    pub fn load(&mut self, contents: &str)
        requires
            old(self).wf(),
        ensures
            final(self).wf(),
            final(self)@ == apply_lines(old(self)@, split_lines(contents@)),
            final(self).path_view() == old(self).path_view(),
    {
        let n = contents.unicode_len();
        let mut pos: usize = 0;
        proof {
            assert(contents@.skip(0) =~= contents@);
        }
        while pos < n
            invariant
                self.wf(),
                n == contents@.len(),
                pos <= n,
                self.path_view() == old(self).path_view(),
                apply_lines(self@, split_lines(contents@.skip(pos as int))) == apply_lines(
                    old(self)@,
                    split_lines(contents@),
                ),
            decreases n - pos,
        {
            let ghost m0 = self@;
            let ghost s1 = contents@.skip(pos as int);
            let end = find_char_from(contents, pos, '\n');
            let line = contents.substring_char(pos, end);
            proof {
                assert(line@ =~= s1.take(end - pos));
                if end < n {
                    assert forall|j: int| 0 <= j < end - pos implies s1[j] != '\n' by {
                        assert(s1[j] == contents@[pos + j]);
                    }
                    assert(s1[end - pos] == contents@[end as int]);
                    lemma_split_lines_step(s1, end - pos);
                    assert(s1.skip(end - pos + 1) =~= contents@.skip(end + 1));
                    lemma_apply_lines_cons(m0, line@, split_lines(contents@.skip(end + 1)));
                } else {
                    assert(line@ =~= s1);
                    assert forall|j: int| 0 <= j < s1.len() implies s1[j] != '\n' by {
                        assert(s1[j] == contents@[pos + j]);
                    }
                    lemma_split_lines_whole(s1);
                    lemma_apply_lines_cons(m0, line@, Seq::<Seq<char>>::empty());
                    assert(seq![line@] + Seq::<Seq<char>>::empty() =~= seq![line@]);
                    assert(contents@.skip(n as int) =~= Seq::<char>::empty());
                }
            }
            let line_len = line.unicode_len();
            let colon = find_char_from(line, 0, ':');
            if colon < line_len {
                proof {
                    lemma_find_char_at(line@, ':', colon as int);
                }
                let k = line.substring_char(0, colon).to_owned();
                let v = line.substring_char(colon + 1, line_len).to_owned();
                proof {
                    assert(line@.take(colon as int) == k@);
                    assert(line@.skip(colon as int + 1) == v@);
                    assert(apply_line(m0, line@) == m0.insert(k@, v@));
                }
                self.set(k, v);
            } else {
                proof {
                    lemma_find_char_absent(line@, ':');
                    assert(apply_line(m0, line@) == m0);
                }
            }
            pos = if end < n {
                end + 1
            } else {
                n
            };
        }
        proof {
            assert(contents@.skip(n as int) =~= Seq::<char>::empty());
        }
    }

    /// Builds a store bound to `file_path` from the backing file's text,
    /// handed in by the caller as `Some(text)`; `None` stands for a file
    /// that could not be read, and fails the whole construction with
    /// `IoError` rather than starting empty.
    pub fn new(file_path: String, contents: Option<&str>) -> (r: Result<KeyValueStore, StoreError>)
        ensures
            match r {
                Ok(s) => contents is Some && s.wf() && s@ == parse_contents(contents.unwrap()@)
                    && s.path_view() == file_path@,
                Err(e) => contents is None && e is IoError,
            },
    {
        match contents {
            None => Err(StoreError::IoError),
            Some(text) => {
                let mut store = KeyValueStore { data: Vec::new(), file_path };
                proof {
                    assert(store.entries() =~= Seq::<(Seq<char>, Seq<char>)>::empty());
                    assert(store@ =~= Map::<Seq<char>, Seq<char>>::empty());
                }
                store.load(text);
                Ok(store)
            },
        }
    }

    /// Serializes the mapping to the text the backing file is to be
    /// rewritten with: one `key:value` line per entry, in storage order.
    pub fn save(&self) -> (out: String)
        ensures
            out@ == serialize_entries(self.entries()),
    {
        let mut out = String::new();
        let n = self.data.len();
        let mut i: usize = 0;
        while i < n
            invariant
                n == self.data.len(),
                i <= n,
                out@ == serialize_entries(self.entries().take(i as int)),
            decreases n - i,
        {
            let ghost done = self.entries().take(i as int);
            out.append(self.data[i].0.as_str());
            out.append(":");
            out.append(self.data[i].1.as_str());
            out.append("\n");
            proof {
                reveal_strlit(":");
                reveal_strlit("\n");
                assert(":"@ =~= seq![':']);
                assert("\n"@ =~= seq!['\n']);
                lemma_serialize_push(done, self.entries()[i as int]);
                assert(self.entries().take(i + 1) =~= done.push(self.entries()[i as int]));
                assert(out@ =~= serialize_entries(self.entries().take(i + 1)));
            }
            i = i + 1;
        }
        proof {
            assert(self.entries().take(n as int) =~= self.entries());
        }
        out
    }

    /// The number of entries the mapping holds.
    pub fn len(&self) -> (n: usize)
        requires
            self.wf(),
        ensures
            n == self@.dom().len(),
    {
        proof {
            lemma_entries_len(self.entries());
        }
        self.data.len()
    }

    /// The path of the backing file, as recorded at construction.
    pub fn path(&self) -> (r: &str)
        ensures
            r@ == self.path_view(),
    {
        self.file_path.as_str()
    }

    /// Removes `key` from the mapping and returns its value. Fails with
    /// `KeyNotFound` when the key is absent, leaving the store unchanged;
    /// nothing is then owed to the backing file. On success the caller is
    /// expected to rewrite the backing file with `save`.
    pub fn delete(&mut self, key: &str) -> (r: Result<String, StoreError>)
        requires
            old(self).wf(),
        ensures
            final(self).wf(),
            final(self).path_view() == old(self).path_view(),
            match r {
                Ok(v) => old(self)@.contains_key(key@) && v@ == old(self)@[key@] && final(self)@
                    == old(self)@.remove(key@),
                Err(e) => !old(self)@.contains_key(key@) && *final(self) == *old(self) && (
                e matches StoreError::KeyNotFound(k) && k@ == key@),
            },
    {
        let ghost es0 = self.entries();
        match self.find_index(key) {
            Some(i) => {
                proof {
                    lemma_entries_key(es0, i as int);
                    lemma_entries_remove(es0, i as int);
                }
                let entry = self.data.remove(i);
                proof {
                    assert(self.entries() =~= es0.remove(i as int));
                }
                Ok(entry.1)
            },
            None => {
                proof {
                    lemma_entries_absent(es0, key@);
                }
                Err(StoreError::KeyNotFound(key.to_owned()))
            },
        }
    }
}

/// **Round trip**: for a well-formed store whose keys hold neither `:`
/// nor a newline and whose values hold no newline, the text `save`
/// returns parses back — as `new` parses it — to exactly the mapping the
/// store holds.
pub proof fn lemma_save_then_open_round_trip(s: &KeyValueStore)
    requires
        s.wf(),
        forall|i: int|
            0 <= i < s.entries().len() ==> #[trigger] crate::codec::line_safe(
                s.entries()[i].0,
                s.entries()[i].1,
            ),
    ensures
        parse_contents(serialize_entries(s.entries())) == s@,
{
    crate::codec::lemma_round_trip(s.entries());
}

/// **Overwrite**: setting a key twice leaves the value of the second
/// call, and the second call changes neither the key set nor its size.
pub proof fn lemma_set_overwrite(
    m: Map<Seq<char>, Seq<char>>,
    k: Seq<char>,
    v1: Seq<char>,
    v2: Seq<char>,
)
    ensures
        m.insert(k, v1).insert(k, v2) == m.insert(k, v2),
        m.insert(k, v1).insert(k, v2).dom() == m.insert(k, v1).dom(),
{
    assert(m.insert(k, v1).insert(k, v2) =~= m.insert(k, v2));
    assert(m.insert(k, v1).insert(k, v2).dom() =~= m.insert(k, v1).dom());
}

/// **Delete then get**: after a key is removed, looking it up finds
/// nothing, so `get` fails with `KeyNotFound`.
pub proof fn lemma_delete_then_get(m: Map<Seq<char>, Seq<char>>, k: Seq<char>)
    ensures
        !m.remove(k).contains_key(k),
{
}

/// Index of the first occurrence of `c` in `s` at or after `from`, or the
/// length of `s` when `c` does not occur there.
pub fn find_char_from(s: &str, from: usize, c: char) -> (r: usize)
    requires
        from <= s@.len(),
    ensures
        from <= r <= s@.len(),
        forall|j: int| from <= j < r ==> s@[j] != c,
        r < s@.len() ==> s@[r as int] == c,
{
    let n = s.unicode_len();
    let mut i: usize = from;
    while i < n
        invariant
            n == s@.len(),
            from <= i <= n,
            forall|j: int| from <= j < i ==> s@[j] != c,
        decreases n - i,
    {
        if s.get_char(i) == c {
            return i;
        }
        i = i + 1;
    }
    n
}

/// With distinct keys, the mapping has exactly one key per entry.
pub proof fn lemma_entries_len(es: Seq<(Seq<char>, Seq<char>)>)
    requires
        distinct_keys(es),
    ensures
        map_of_entries(es).dom().finite(),
        map_of_entries(es).dom().len() == es.len(),
    decreases es.len(),
{
    broadcast use vstd::set::group_set_axioms;

    if es.len() == 0 {
        assert(map_of_entries(es).dom() =~= Set::<Seq<char>>::empty());
    } else {
        lemma_distinct_drop_last(es);
        lemma_entries_len(es.drop_last());
        assert(!has_key(es.drop_last(), es.last().0)) by {
            if has_key(es.drop_last(), es.last().0) {
                let j = choose|j: int|
                    0 <= j < es.drop_last().len() && es.drop_last()[j].0 == es.last().0;
                assert(es[j].0 == es[es.len() - 1].0);
            }
        }
        lemma_entries_absent(es.drop_last(), es.last().0);
        assert(map_of_entries(es).dom() =~= map_of_entries(es.drop_last()).dom().insert(
            es.last().0,
        ));
    }
}

/// Dropping the last entry keeps the keys distinct.
proof fn lemma_distinct_drop_last(es: Seq<(Seq<char>, Seq<char>)>)
    requires
        distinct_keys(es),
        es.len() > 0,
    ensures
        distinct_keys(es.drop_last()),
{
    assert forall|i: int, j: int|
        0 <= i < j < es.drop_last().len() implies es.drop_last()[i].0 != es.drop_last()[j].0 by {
        assert(es.drop_last()[i] == es[i]);
        assert(es.drop_last()[j] == es[j]);
    }
}

/// A key that no entry carries is absent from the mapping the entries denote.
pub proof fn lemma_entries_absent(es: Seq<(Seq<char>, Seq<char>)>, k: Seq<char>)
    requires
        !has_key(es, k),
    ensures
        !map_of_entries(es).contains_key(k),
    decreases es.len(),
{
    if es.len() == 0 {
    } else {
        assert(!has_key(es.drop_last(), k)) by {
            if has_key(es.drop_last(), k) {
                let i = choose|i: int| 0 <= i < es.drop_last().len() && es.drop_last()[i].0 == k;
                assert(es[i].0 == k);
            }
        }
        assert(es.last().0 != k) by {
            assert(es[es.len() - 1] == es.last());
        }
        lemma_entries_absent(es.drop_last(), k);
    }
}

/// With distinct keys, the entry at `i` gives the value the mapping holds
/// for its key.
pub proof fn lemma_entries_key(es: Seq<(Seq<char>, Seq<char>)>, i: int)
    requires
        distinct_keys(es),
        0 <= i < es.len(),
    ensures
        map_of_entries(es).contains_key(es[i].0),
        map_of_entries(es)[es[i].0] == es[i].1,
    decreases es.len(),
{
    if i == es.len() - 1 {
        assert(es.last() == es[i]);
    } else {
        lemma_distinct_drop_last(es);
        lemma_entries_key(es.drop_last(), i);
        assert(es.drop_last()[i] == es[i]);
        assert(es.last() == es[es.len() - 1]);
        assert(es.last().0 != es[i].0);
    }
}

/// With distinct keys, removing the entry at `i` removes exactly its key
/// from the mapping, and keeps the remaining keys distinct.
pub proof fn lemma_entries_remove(es: Seq<(Seq<char>, Seq<char>)>, i: int)
    requires
        distinct_keys(es),
        0 <= i < es.len(),
    ensures
        distinct_keys(es.remove(i)),
        !has_key(es.remove(i), es[i].0),
        map_of_entries(es.remove(i)) == map_of_entries(es).remove(es[i].0),
    decreases es.len(),
{
    let k = es[i].0;
    assert forall|j: int| 0 <= j < es.remove(i).len() implies es.remove(i)[j] == (if j < i {
        es[j]
    } else {
        es[j + 1]
    }) by {}
    assert forall|p: int, q: int|
        0 <= p < q < es.remove(i).len() implies es.remove(i)[p].0 != es.remove(i)[q].0 by {
        if p < i {
            assert(es.remove(i)[p] == es[p]);
        } else {
            assert(es.remove(i)[p] == es[p + 1]);
        }
        if q < i {
            assert(es.remove(i)[q] == es[q]);
        } else {
            assert(es.remove(i)[q] == es[q + 1]);
        }
    }
    assert(!has_key(es.remove(i), k)) by {
        if has_key(es.remove(i), k) {
            let j = choose|j: int| 0 <= j < es.remove(i).len() && es.remove(i)[j].0 == k;
            if j < i {
                assert(es[j].0 == k);
            } else {
                assert(es[j + 1].0 == k);
            }
        }
    }
    if i == es.len() - 1 {
        assert(es.remove(i) =~= es.drop_last());
        lemma_distinct_drop_last(es);
        assert(!has_key(es.drop_last(), k)) by {
            if has_key(es.drop_last(), k) {
                let j = choose|j: int| 0 <= j < es.drop_last().len() && es.drop_last()[j].0 == k;
                assert(es[j].0 == k);
            }
        }
        lemma_entries_absent(es.drop_last(), k);
        assert(es.last() == es[i]);
        assert(map_of_entries(es.remove(i)) =~= map_of_entries(es).remove(k));
    } else {
        lemma_distinct_drop_last(es);
        assert(es.drop_last()[i] == es[i]);
        lemma_entries_remove(es.drop_last(), i);
        assert(es.remove(i).len() > 0);
        assert(es.remove(i).drop_last() =~= es.drop_last().remove(i));
        assert(es.remove(i).last() == es[es.len() - 1]);
        assert(es.last() == es[es.len() - 1]);
        assert(es.last().0 != k);
        assert(map_of_entries(es.remove(i)) == map_of_entries(es.drop_last()).remove(k).insert(
            es.last().0,
            es.last().1,
        ));
        assert(map_of_entries(es) == map_of_entries(es.drop_last()).insert(
            es.last().0,
            es.last().1,
        ));
        assert(map_of_entries(es.drop_last()).remove(k).insert(es.last().0, es.last().1)
            =~= map_of_entries(es.drop_last()).insert(es.last().0, es.last().1).remove(k));
    }
}

/// Compares two string slices character by character.
pub fn str_eq(a: &str, b: &str) -> (r: bool)
    ensures
        r == (a@ == b@),
{
    let alen = a.unicode_len();
    let blen = b.unicode_len();
    if alen != blen {
        return false;
    }
    let mut i: usize = 0;
    while i < alen
        invariant
            alen == a@.len(),
            blen == b@.len(),
            alen == blen,
            i <= alen,
            forall|j: int| 0 <= j < i ==> a@[j] == b@[j],
        decreases alen - i,
    {
        if a.get_char(i) != b.get_char(i) {
            return false;
        }
        i = i + 1;
    }
    proof {
        assert(a@ =~= b@);
    }
    true
}

} // verus!
