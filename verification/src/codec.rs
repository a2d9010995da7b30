//! The on-disk line format: each entry is serialized as `key:value\n`,
//! and a file is parsed line by line, splitting each line at its first
//! `:`. Lines without a `:` contribute no entry. These spec functions
//! define the format; the lemmas relate parsing to serialization.

use vstd::prelude::*;

verus! {

/// Index of the first occurrence of `c` in `s`, or -1 if `c` does not occur.
pub open spec fn find_char(s: Seq<char>, c: char) -> int
    decreases s.len(),
{
    if s.len() == 0 {
        -1
    } else if s[0] == c {
        0
    } else if find_char(s.drop_first(), c) < 0 {
        -1
    } else {
        find_char(s.drop_first(), c) + 1
    }
}

/// If `c` first occurs in `s` at position `i`, then `find_char` returns `i`.
pub proof fn lemma_find_char_at(s: Seq<char>, c: char, i: int)
    requires
        0 <= i < s.len(),
        s[i] == c,
        forall|j: int| 0 <= j < i ==> s[j] != c,
    ensures
        find_char(s, c) == i,
    decreases s.len(),
{
    if i == 0 {
    } else {
        assert forall|j: int| 0 <= j < i - 1 implies s.drop_first()[j] != c by {
            assert(s.drop_first()[j] == s[j + 1]);
        }
        assert(s.drop_first()[i - 1] == s[i]);
        lemma_find_char_at(s.drop_first(), c, i - 1);
    }
}

/// If `c` occurs nowhere in `s`, then `find_char` returns -1.
pub proof fn lemma_find_char_absent(s: Seq<char>, c: char)
    requires
        forall|j: int| 0 <= j < s.len() ==> s[j] != c,
    ensures
        find_char(s, c) == -1,
    decreases s.len(),
{
    if s.len() == 0 {
    } else {
        assert forall|j: int| 0 <= j < s.drop_first().len() implies s.drop_first()[j] != c by {
            assert(s.drop_first()[j] == s[j + 1]);
        }
        lemma_find_char_absent(s.drop_first(), c);
    }
}

/// The entry a single line yields: the text before the first `:` as the
/// key and everything after it as the value, or nothing when the line
/// holds no `:`.
pub open spec fn line_entry(line: Seq<char>) -> Option<(Seq<char>, Seq<char>)> {
    let i = find_char(line, ':');
    if i < 0 {
        None
    } else {
        Some((line.take(i), line.skip(i + 1)))
    }
}

/// Inserts the entry a line yields into the mapping; a line without a
/// `:` leaves the mapping unchanged.
pub open spec fn apply_line(
    m: Map<Seq<char>, Seq<char>>,
    line: Seq<char>,
) -> Map<Seq<char>, Seq<char>> {
    match line_entry(line) {
        Some(e) => m.insert(e.0, e.1),
        None => m,
    }
}

/// Splits text into its newline-delimited lines, the delimiters removed.
/// A final fragment without a trailing newline counts as a line; empty
/// text has no lines.
pub open spec fn split_lines(s: Seq<char>) -> Seq<Seq<char>>
    decreases s.len(),
{
    if s.len() == 0 {
        Seq::empty()
    } else {
        let i = find_char(s, '\n');
        if 0 <= i < s.len() {
            seq![s.take(i)] + split_lines(s.skip(i + 1))
        } else {
            seq![s]
        }
    }
}

/// Applies the lines to the mapping in order, so a later line wins over
/// an earlier one with the same key.
pub open spec fn apply_lines(
    m: Map<Seq<char>, Seq<char>>,
    lines: Seq<Seq<char>>,
) -> Map<Seq<char>, Seq<char>>
    decreases lines.len(),
{
    if lines.len() == 0 {
        m
    } else {
        apply_lines(apply_line(m, lines[0]), lines.drop_first())
    }
}

/// The mapping a whole file's text parses to.
pub open spec fn parse_contents(s: Seq<char>) -> Map<Seq<char>, Seq<char>> {
    apply_lines(Map::empty(), split_lines(s))
}

/// The serialized form of one entry: `key:value` followed by a newline.
pub open spec fn entry_line(k: Seq<char>, v: Seq<char>) -> Seq<char> {
    k + seq![':'] + v + seq!['\n']
}

/// The serialized form of a sequence of entries, one line each, in order.
pub open spec fn serialize_entries(es: Seq<(Seq<char>, Seq<char>)>) -> Seq<char>
    decreases es.len(),
{
    if es.len() == 0 {
        Seq::empty()
    } else {
        entry_line(es[0].0, es[0].1) + serialize_entries(es.drop_first())
    }
}

/// The mapping a sequence of entries denotes; a later entry wins over an
/// earlier one with the same key.
pub open spec fn map_of_entries(es: Seq<(Seq<char>, Seq<char>)>) -> Map<Seq<char>, Seq<char>>
    decreases es.len(),
{
    if es.len() == 0 {
        Map::empty()
    } else {
        map_of_entries(es.drop_last()).insert(es.last().0, es.last().1)
    }
}

/// Inserts the entries into the mapping from first to last.
pub open spec fn insert_all(
    m: Map<Seq<char>, Seq<char>>,
    es: Seq<(Seq<char>, Seq<char>)>,
) -> Map<Seq<char>, Seq<char>>
    decreases es.len(),
{
    if es.len() == 0 {
        m
    } else {
        insert_all(m.insert(es[0].0, es[0].1), es.drop_first())
    }
}

/// Whether some entry of `es` carries the key `k`.
pub open spec fn has_key(es: Seq<(Seq<char>, Seq<char>)>, k: Seq<char>) -> bool {
    exists|i: int| 0 <= i < es.len() && es[i].0 == k
}

/// Whether the keys of `es` are pairwise distinct.
pub open spec fn distinct_keys(es: Seq<(Seq<char>, Seq<char>)>) -> bool {
    forall|i: int, j: int| 0 <= i < j < es.len() ==> es[i].0 != es[j].0
}

/// Whether an entry survives the line format: its key holds neither the
/// delimiter nor a newline, and its value holds no newline.
pub open spec fn line_safe(k: Seq<char>, v: Seq<char>) -> bool {
    &&& !k.contains(':')
    &&& !k.contains('\n')
    &&& !v.contains('\n')
}

/// Splitting text whose first newline stands at `i` peels the first line off.
pub proof fn lemma_split_lines_step(s: Seq<char>, i: int)
    requires
        0 <= i < s.len(),
        s[i] == '\n',
        forall|j: int| 0 <= j < i ==> s[j] != '\n',
    ensures
        split_lines(s) == seq![s.take(i)] + split_lines(s.skip(i + 1)),
{
    lemma_find_char_at(s, '\n', i);
}

/// Nonempty text without a newline is a single line.
pub proof fn lemma_split_lines_whole(s: Seq<char>)
    requires
        s.len() > 0,
        forall|j: int| 0 <= j < s.len() ==> s[j] != '\n',
    ensures
        split_lines(s) == seq![s],
{
    lemma_find_char_absent(s, '\n');
}

/// Applying a line sequence that starts with `line` applies `line` first.
pub proof fn lemma_apply_lines_cons(
    m: Map<Seq<char>, Seq<char>>,
    line: Seq<char>,
    rest: Seq<Seq<char>>,
)
    ensures
        apply_lines(m, seq![line] + rest) == apply_lines(apply_line(m, line), rest),
{
    let ls = seq![line] + rest;
    assert(ls[0] == line);
    assert(ls.drop_first() =~= rest);
}

/// Serializing one more entry appends one more line.
pub proof fn lemma_serialize_push(es: Seq<(Seq<char>, Seq<char>)>, e: (Seq<char>, Seq<char>))
    ensures
        serialize_entries(es.push(e)) =~= serialize_entries(es) + entry_line(e.0, e.1),
    decreases es.len(),
{
    if es.len() == 0 {
        assert(es.push(e)[0] == e);
        assert(es.push(e).drop_first() =~= Seq::<(Seq<char>, Seq<char>)>::empty());
        assert(serialize_entries(es.push(e)) == entry_line(e.0, e.1) + serialize_entries(
            Seq::<(Seq<char>, Seq<char>)>::empty(),
        ));
    } else {
        assert(es.push(e)[0] == es[0]);
        assert(es.push(e).drop_first() =~= es.drop_first().push(e));
        lemma_serialize_push(es.drop_first(), e);
        assert(serialize_entries(es.push(e)) == entry_line(es[0].0, es[0].1) + serialize_entries(
            es.drop_first().push(e),
        ));
        assert(serialize_entries(es) == entry_line(es[0].0, es[0].1) + serialize_entries(
            es.drop_first(),
        ));
    }
}

/// Inserting the entries and then one more equals inserting the longer
/// sequence from the start.
pub proof fn lemma_insert_all_push(
    m: Map<Seq<char>, Seq<char>>,
    es: Seq<(Seq<char>, Seq<char>)>,
    e: (Seq<char>, Seq<char>),
)
    ensures
        insert_all(m, es.push(e)) == insert_all(m, es).insert(e.0, e.1),
    decreases es.len(),
{
    if es.len() == 0 {
        assert(es.push(e)[0] == e);
        assert(es.push(e).drop_first() =~= Seq::<(Seq<char>, Seq<char>)>::empty());
        assert(insert_all(m, es.push(e)) == insert_all(
            m.insert(e.0, e.1),
            Seq::<(Seq<char>, Seq<char>)>::empty(),
        ));
    } else {
        assert(es.push(e)[0] == es[0]);
        assert(es.push(e).drop_first() =~= es.drop_first().push(e));
        lemma_insert_all_push(m.insert(es[0].0, es[0].1), es.drop_first(), e);
        assert(insert_all(m, es.push(e)) == insert_all(
            m.insert(es[0].0, es[0].1),
            es.drop_first().push(e),
        ));
        assert(insert_all(m, es) == insert_all(m.insert(es[0].0, es[0].1), es.drop_first()));
    }
}

/// The mapping a sequence of entries denotes is what inserting them in
/// order into the empty mapping yields.
pub proof fn lemma_map_of_entries_insert_all(es: Seq<(Seq<char>, Seq<char>)>)
    ensures
        map_of_entries(es) == insert_all(Map::empty(), es),
    decreases es.len(),
{
    if es.len() == 0 {
    } else {
        lemma_map_of_entries_insert_all(es.drop_last());
        assert(es.drop_last().push(es.last()) =~= es);
        lemma_insert_all_push(Map::empty(), es.drop_last(), es.last());
    }
}

/// A serialized line-safe entry splits back into one line per entry, and
/// parsing those lines inserts exactly the entries, in order.
pub proof fn lemma_parse_serialized(
    m: Map<Seq<char>, Seq<char>>,
    es: Seq<(Seq<char>, Seq<char>)>,
)
    requires
        forall|i: int| 0 <= i < es.len() ==> #[trigger] line_safe(es[i].0, es[i].1),
    ensures
        apply_lines(m, split_lines(serialize_entries(es))) == insert_all(m, es),
    decreases es.len(),
{
    if es.len() == 0 {
    } else {
        let k = es[0].0;
        let v = es[0].1;
        let s = serialize_entries(es);
        let rest = serialize_entries(es.drop_first());
        assert(line_safe(k, v));
        assert(s == entry_line(k, v) + rest);
        let nl = k.len() + 1 + v.len();
        // the newline ending the first line is the first newline of s
        assert(s[nl as int] == '\n');
        assert forall|j: int| 0 <= j < nl implies s[j] != '\n' by {
            if j < k.len() {
                assert(s[j] == k[j]);
                assert(!k.contains('\n'));
                assert(k[j] != '\n') by {
                    if k[j] == '\n' {
                        assert(k.contains('\n'));
                    }
                }
            } else if j == k.len() {
                assert(s[j] == ':');
            } else {
                assert(s[j] == v[j - k.len() - 1]);
                assert(!v.contains('\n'));
                assert(v[j - k.len() - 1] != '\n') by {
                    if v[j - k.len() - 1] == '\n' {
                        assert(v.contains('\n'));
                    }
                }
            }
        }
        lemma_split_lines_step(s, nl as int);
        let line = s.take(nl as int);
        assert(line =~= k + seq![':'] + v);
        assert(s.skip(nl as int + 1) =~= rest);
        lemma_apply_lines_cons(m, line, split_lines(rest));
        // the line parses back to the entry (k, v)
        assert(line[k.len() as int] == ':');
        assert forall|j: int| 0 <= j < k.len() implies line[j] != ':' by {
            assert(line[j] == k[j]);
            if k[j] == ':' {
                assert(k.contains(':'));
            }
        }
        lemma_find_char_at(line, ':', k.len() as int);
        assert(line.take(k.len() as int) =~= k);
        assert(line.skip(k.len() as int + 1) =~= v);
        assert(apply_line(m, line) == m.insert(k, v));
        lemma_parse_serialized(m.insert(k, v), es.drop_first());
    }
}

/// **Round trip**: serializing a sequence of line-safe entries and parsing
/// the text back yields exactly the mapping those entries denote, whatever
/// order they stand in.
pub proof fn lemma_round_trip(es: Seq<(Seq<char>, Seq<char>)>)
    requires
        forall|i: int| 0 <= i < es.len() ==> #[trigger] line_safe(es[i].0, es[i].1),
    ensures
        parse_contents(serialize_entries(es)) == map_of_entries(es),
{
    lemma_parse_serialized(Map::empty(), es);
    lemma_map_of_entries_insert_all(es);
}

/// **Malformed-line tolerance**: a line without the delimiter contributes
/// no entry, whatever lines follow it.
pub proof fn lemma_line_without_delimiter_ignored(
    m: Map<Seq<char>, Seq<char>>,
    line: Seq<char>,
    rest: Seq<Seq<char>>,
)
    requires
        !line.contains(':'),
    ensures
        apply_lines(m, seq![line] + rest) == apply_lines(m, rest),
{
    assert forall|j: int| 0 <= j < line.len() implies line[j] != ':' by {
        if line[j] == ':' {
            assert(line.contains(':'));
        }
    }
    lemma_find_char_absent(line, ':');
    lemma_apply_lines_cons(m, line, rest);
}

} // verus!
