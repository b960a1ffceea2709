//! Header multimap: each name (case kept as received) maps to an ordered list
//! of values. Names are kept in the order in which they first appeared.

use vstd::prelude::*;
use vstd::string::*;
use crate::text::{
    chars_of, is_trimmed, lacks, lemma_split_append, lemma_split_pieces, lemma_split_single,
    lemma_trim, lemma_trim_trimmed, no_colon_space, sep_at, slice_of, split_on, split_str, trim,
    trim_str,
};
use crate::parser::ParseError;

verus! {

/// One header: its name and its values, in order.
pub type Entry = (Seq<char>, Seq<Seq<char>>);

pub open spec fn strs(v: Seq<String>) -> Seq<Seq<char>> {
    v.map_values(|s: String| s@)
}

pub open spec fn unique_names(e: Seq<Entry>) -> bool {
    forall|i: int, j: int| 0 <= i < e.len() && 0 <= j < e.len() && i != j ==> e[i].0 != e[j].0
}

pub open spec fn has_name(e: Seq<Entry>, k: Seq<char>) -> bool {
    exists|i: int| 0 <= i < e.len() && e[i].0 == k
}

pub open spec fn name_index(e: Seq<Entry>, k: Seq<char>) -> int {
    choose|i: int| 0 <= i < e.len() && e[i].0 == k
}

/// The values stored under `k`, if `k` is present.
pub open spec fn lookup(e: Seq<Entry>, k: Seq<char>) -> Option<Seq<Seq<char>>> {
    if has_name(e, k) {
        Some(e[name_index(e, k)].1)
    } else {
        None
    }
}

/// `e` with `v` appended to the values of `k` (a new entry when `k` is absent).
pub open spec fn insert_value(e: Seq<Entry>, k: Seq<char>, v: Seq<char>) -> Seq<Entry> {
    if has_name(e, k) {
        let i = name_index(e, k);
        e.update(i, (k, e[i].1.push(v)))
    } else {
        e.push((k, seq![v]))
    }
}

/// `e` with each of `vs` appended, in order, to the values of `k`.
pub open spec fn insert_values(e: Seq<Entry>, k: Seq<char>, vs: Seq<Seq<char>>) -> Seq<Entry>
    decreases vs.len(),
{
    if vs.len() == 0 {
        e
    } else {
        insert_value(insert_values(e, k, vs.drop_last()), k, vs.last())
    }
}

/// `e` with the name `k` recorded, with no values where it is new.
pub open spec fn add_name(e: Seq<Entry>, k: Seq<char>) -> Seq<Entry> {
    if has_name(e, k) {
        e
    } else {
        e.push((k, Seq::empty()))
    }
}

/// The entries obtained by inserting each pair of `d`, in order, into `e`;
/// a name that comes with no values is recorded all the same.
pub open spec fn insert_pairs(e: Seq<Entry>, d: Seq<Entry>) -> Seq<Entry>
    decreases d.len(),
{
    if d.len() == 0 {
        e
    } else {
        insert_values(add_name(insert_pairs(e, d.drop_last()), d.last().0), d.last().0, d.last().1)
    }
}

/// Inserting values keeps every name already present.
pub proof fn lemma_insert_values_keeps_names(e: Seq<Entry>, k: Seq<char>, vs: Seq<Seq<char>>, x: Seq<char>)
    requires
        has_name(e, x),
    ensures
        has_name(insert_values(e, k, vs), x),
    decreases vs.len(),
{
    if vs.len() > 0 {
        lemma_insert_values_keeps_names(e, k, vs.drop_last(), x);
        let p = insert_values(e, k, vs.drop_last());
        let j = choose|j: int| 0 <= j < p.len() && p[j].0 == x;
        let r = insert_value(p, k, vs.last());
        if has_name(p, k) {
            let i = name_index(p, k);
            assert(r[j].0 == x);
        } else {
            assert(r[j] == p[j]);
        }
    }
}

/// `s` holds exactly one `": "`.
pub open spec fn one_sep(s: Seq<char>) -> bool {
    exists|i: int| sep_at(s, i) && (forall|j: int| #[trigger] sep_at(s, j) ==> j == i)
}

pub open spec fn sep_index(s: Seq<char>) -> int {
    choose|i: int| sep_at(s, i)
}

/// A header line `Name: v1, v2`: the name as written and the trimmed values,
/// or `None` where the line does not hold exactly one `": "`.
#[verifier::opaque]
pub open spec fn header_line(s: Seq<char>) -> Option<Entry> {
    if one_sep(s) {
        let i = sep_index(s);
        Some((s.take(i), split_on(s.skip(i + 2), ',').map_values(|p: Seq<char>| trim(p))))
    } else {
        None
    }
}

/// The values joined by `", "`.
pub open spec fn join_values(vs: Seq<Seq<char>>) -> Seq<char>
    decreases vs.len(),
{
    if vs.len() == 0 {
        Seq::empty()
    } else if vs.len() == 1 {
        vs[0]
    } else {
        join_values(vs.drop_last()) + seq![',', ' '] + vs.last()
    }
}

/// The text of one header line, without its line end.
pub open spec fn line_text(k: Seq<char>, vs: Seq<Seq<char>>) -> Seq<char> {
    k + seq![':', ' '] + join_values(vs)
}

/// The wire form of the headers: one `Name: v1, v2\r\n` line per name that has
/// values, in the order of the entries.
pub open spec fn format_entries(e: Seq<Entry>) -> Seq<char>
    decreases e.len(),
{
    if e.len() == 0 {
        Seq::empty()
    } else if e.last().1.len() == 0 {
        format_entries(e.drop_last())
    } else {
        format_entries(e.drop_last()) + line_text(e.last().0, e.last().1) + seq!['\r', '\n']
    }
}

/// The pieces of `join_values(vs)` split at `,`: the first value, then each
/// other value behind the space that followed its comma.
pub open spec fn spaced(vs: Seq<Seq<char>>) -> Seq<Seq<char>> {
    Seq::new(vs.len(), |k: int| if k == 0 { vs[0] } else { seq![' '] + vs[k] })
}

proof fn lemma_split_join(vs: Seq<Seq<char>>)
    requires
        vs.len() >= 1,
        forall|k: int| 0 <= k < vs.len() ==> lacks(#[trigger] vs[k], ','),
    ensures
        split_on(join_values(vs), ',') == spaced(vs),
    decreases vs.len(),
{
    if vs.len() == 1 {
        lemma_split_single(vs[0], ',');
        assert(spaced(vs) =~= seq![vs[0]]);
    } else {
        let d = vs.drop_last();
        assert forall|k: int| 0 <= k < d.len() implies lacks(#[trigger] d[k], ',') by {
            assert(d[k] == vs[k]);
        }
        lemma_split_join(d);
        let b = seq![' '] + vs.last();
        assert(lacks(vs[vs.len() - 1], ','));
        assert forall|i: int| 0 <= i < b.len() implies b[i] != ',' by {
            if i > 0 {
                assert(b[i] == vs.last()[i - 1]);
            }
        }
        assert(join_values(vs) =~= join_values(d) + seq![','] + b);
        lemma_split_append(join_values(d), ',', b);
        assert(spaced(vs) =~= spaced(d).push(b));
    }
}

proof fn lemma_join_no_sep(vs: Seq<Seq<char>>)
    requires
        forall|k: int| 0 <= k < vs.len() ==> no_colon_space(#[trigger] vs[k]),
    ensures
        no_colon_space(join_values(vs)),
    decreases vs.len(),
{
    if vs.len() == 1 {
        assert(no_colon_space(vs[0]));
    } else if vs.len() > 1 {
        let d = vs.drop_last();
        assert forall|k: int| 0 <= k < d.len() implies no_colon_space(#[trigger] d[k]) by {
            assert(d[k] == vs[k]);
        }
        lemma_join_no_sep(d);
        let j = join_values(d);
        let v = vs.last();
        assert(no_colon_space(vs[vs.len() - 1]));
        let w = join_values(vs);
        assert(w =~= j + seq![',', ' '] + v);
        assert forall|i: int| !#[trigger] sep_at(w, i) by {
            if sep_at(w, i) {
                if i + 1 < j.len() {
                    assert(sep_at(j, i));
                } else if i >= j.len() + 2 {
                    assert(w[i] == v[i - j.len() - 2]);
                    assert(w[i + 1] == v[i - j.len() - 1]);
                    assert(sep_at(v, i - j.len() - 2));
                }
            }
        }
    }
}

/// A name and values that a header line can carry unchanged: no `": "`
/// anywhere, no `,` in a value, nothing to trim, and at least one value.
pub open spec fn clean_entry(k: Seq<char>, vs: Seq<Seq<char>>) -> bool {
    &&& no_colon_space(k)
    &&& is_trimmed(k)
    &&& vs.len() >= 1
    &&& forall|j: int|
        0 <= j < vs.len() ==> lacks(#[trigger] vs[j], ',') && no_colon_space(vs[j]) && is_trimmed(
            vs[j],
        )
}

proof fn lemma_parsed_clean(line: Seq<char>)
    requires
        header_line(line) is Some,
    ensures
        clean_entry(trim(header_line(line)->Some_0.0), header_line(line)->Some_0.1),
{
    reveal(header_line);
    let i = sep_index(line);
    assert(sep_at(line, i));
    let n = line.take(i);
    let rest = line.skip(i + 2);
    let pieces = split_on(rest, ',');
    let vs = pieces.map_values(|p: Seq<char>| trim(p));
    assert forall|j: int| !#[trigger] sep_at(n, j) by {
        if sep_at(n, j) {
            assert(sep_at(line, j));
        }
    }
    assert forall|j: int| !#[trigger] sep_at(rest, j) by {
        if sep_at(rest, j) {
            assert(rest[j] == line[i + 2 + j] && rest[j + 1] == line[i + 3 + j]);
            assert(sep_at(line, i + 2 + j));
        }
    }
    lemma_split_pieces(rest, ',');
    assert forall|k: int| 0 <= k < vs.len() implies lacks(#[trigger] vs[k], ',') && no_colon_space(
        vs[k],
    ) && is_trimmed(vs[k]) by {
        lemma_trim(pieces[k], ',');
    }
    lemma_trim(n, ',');
}

proof fn lemma_clean_round_trip(tn: Seq<char>, vs: Seq<Seq<char>>)
    requires
        clean_entry(tn, vs),
    ensures
        header_line(line_text(tn, vs)) == Some((tn, vs)),
        trim(tn) == tn,
{
    reveal(header_line);
    lemma_trim_trimmed(tn);
    assert forall|k: int| 0 <= k < vs.len() implies no_colon_space(#[trigger] vs[k]) by {}
    lemma_join_no_sep(vs);
    let jv = join_values(vs);
    let m = line_text(tn, vs);
    let t = tn.len() as int;
    assert(m =~= tn + seq![':', ' '] + jv);
    assert(sep_at(m, t));
    assert forall|j: int| #[trigger] sep_at(m, j) implies j == t by {
        if j + 1 < t {
            assert(sep_at(tn, j));
        } else if j >= t + 2 {
            assert(m[j] == jv[j - t - 2] && m[j + 1] == jv[j - t - 1]);
            assert(sep_at(jv, j - t - 2));
        }
    }
    assert(one_sep(m));
    assert(sep_index(m) == t);
    assert(m.take(t) =~= tn);
    assert(m.skip(t + 2) =~= jv);
    assert forall|k: int| 0 <= k < vs.len() implies lacks(#[trigger] vs[k], ',') by {}
    lemma_split_join(vs);
    let back = split_on(jv, ',').map_values(|p: Seq<char>| trim(p));
    assert forall|k: int| 0 <= k < vs.len() implies back[k] == vs[k] by {
        lemma_trim_trimmed(vs[k]);
    }
    assert(back =~= vs);
}

/// Reformatting a parsed header line gives a line that parses to the same
/// name and the same values in the same order: for any line that holds
/// exactly one `": "`, formatting its trimmed name and its values as
/// `Name: v1, v2` and parsing that again yields that name and those values.
pub proof fn lemma_header_round_trip(line: Seq<char>)
    requires
        header_line(line) is Some,
    ensures
        ({
            let (name, values) = header_line(line)->Some_0;
            &&& header_line(line_text(trim(name), values)) == Some((trim(name), values))
            &&& trim(trim(name)) == trim(name)
        }),
{
    lemma_parsed_clean(line);
    let (name, values) = header_line(line)->Some_0;
    lemma_clean_round_trip(trim(name), values);
}

/// The entries obtained by parsing each line of `ls` into `e` in order, as
/// `Headers::parse` does; a line it refuses changes nothing.
pub open spec fn parse_lines(e: Seq<Entry>, ls: Seq<Seq<char>>) -> Seq<Entry>
    decreases ls.len(),
{
    if ls.len() == 0 {
        e
    } else {
        let prev = parse_lines(e, ls.drop_last());
        match header_line(ls.last()) {
            Some(p) => insert_values(prev, trim(p.0), p.1),
            None => prev,
        }
    }
}

/// Parsing one more line continues from what the earlier lines gave, so a
/// sequence of `Headers::parse` calls from empty headers yields `parse_lines`
/// of its lines.
pub proof fn lemma_parse_lines_push(e: Seq<Entry>, ls: Seq<Seq<char>>, l: Seq<char>)
    ensures
        parse_lines(e, ls.push(l)) == parse_lines(parse_lines(e, ls), seq![l]),
{
    let p = parse_lines(e, ls);
    assert(ls.push(l).drop_last() =~= ls);
    assert(ls.push(l).last() == l);
    assert(seq![l].drop_last() =~= Seq::<Seq<char>>::empty());
    assert(seq![l].last() == l);
    assert(parse_lines(p, Seq::<Seq<char>>::empty()) == p);
}

/// The lines of `format_entries(e)`, without their line ends.
pub open spec fn entry_lines(e: Seq<Entry>) -> Seq<Seq<char>>
    decreases e.len(),
{
    if e.len() == 0 {
        Seq::empty()
    } else if e.last().1.len() == 0 {
        entry_lines(e.drop_last())
    } else {
        entry_lines(e.drop_last()).push(line_text(e.last().0, e.last().1))
    }
}

/// Lines, each followed by `\r\n`.
pub open spec fn lines_text(ls: Seq<Seq<char>>) -> Seq<char>
    decreases ls.len(),
{
    if ls.len() == 0 {
        Seq::empty()
    } else {
        lines_text(ls.drop_last()) + ls.last() + seq!['\r', '\n']
    }
}

pub open spec fn entries_clean(e: Seq<Entry>) -> bool {
    &&& unique_names(e)
    &&& forall|j: int| 0 <= j < e.len() ==> clean_entry(#[trigger] e[j].0, e[j].1)
}

proof fn lemma_insert_value_clean(e: Seq<Entry>, k: Seq<char>, vs: Seq<Seq<char>>, v: Seq<char>)
    requires
        entries_clean(e),
        clean_entry(k, vs.push(v)),
    ensures
        entries_clean(insert_value(e, k, v)),
{
    let r = insert_value(e, k, v);
    if has_name(e, k) {
        let i = name_index(e, k);
        assert(e[i].0 == k);
        assert forall|j: int| 0 <= j < r.len() implies clean_entry(#[trigger] r[j].0, r[j].1) by {
            if j == i {
                assert(clean_entry(e[i].0, e[i].1));
                assert(lacks(vs.push(v)[vs.len() as int], ','));
                let w = e[i].1.push(v);
                assert forall|x: int| 0 <= x < w.len() implies lacks(#[trigger] w[x], ',')
                    && no_colon_space(w[x]) && is_trimmed(w[x]) by {
                    if x < e[i].1.len() {
                        assert(w[x] == e[i].1[x]);
                    } else {
                        assert(w[x] == vs.push(v)[vs.len() as int]);
                    }
                }
            } else {
                assert(r[j] == e[j]);
            }
        }
    } else {
        assert forall|j: int| 0 <= j < r.len() implies clean_entry(#[trigger] r[j].0, r[j].1) by {
            if j < e.len() {
                assert(r[j] == e[j]);
            } else {
                assert(lacks(vs.push(v)[vs.len() as int], ','));
                assert(seq![v][0] == v);
            }
        }
    }
}

proof fn lemma_insert_values_clean(e: Seq<Entry>, k: Seq<char>, vs: Seq<Seq<char>>)
    requires
        entries_clean(e),
        clean_entry(k, vs),
    ensures
        entries_clean(insert_values(e, k, vs)),
    decreases vs.len(),
{
    if vs.len() > 0 {
        let d = vs.drop_last();
        if d.len() > 0 {
            assert forall|j: int| 0 <= j < d.len() implies lacks(#[trigger] d[j], ',')
                && no_colon_space(d[j]) && is_trimmed(d[j]) by {
                assert(d[j] == vs[j]);
            }
            lemma_insert_values_clean(e, k, d);
        }
        assert(d.push(vs.last()) =~= vs);
        lemma_insert_value_clean(insert_values(e, k, d), k, d, vs.last());
    }
}

proof fn lemma_parse_lines_clean(ls: Seq<Seq<char>>)
    ensures
        entries_clean(parse_lines(Seq::empty(), ls)),
    decreases ls.len(),
{
    if ls.len() > 0 {
        lemma_parse_lines_clean(ls.drop_last());
        if header_line(ls.last()) is Some {
            lemma_parsed_clean(ls.last());
            let p = header_line(ls.last())->Some_0;
            lemma_insert_values_clean(parse_lines(Seq::empty(), ls.drop_last()), trim(p.0), p.1);
        }
    }
}

proof fn lemma_insert_new_name(d: Seq<Entry>, k: Seq<char>, vs: Seq<Seq<char>>)
    requires
        !has_name(d, k),
        vs.len() >= 1,
    ensures
        insert_values(d, k, vs) == d.push((k, vs)),
    decreases vs.len(),
{
    let dl = vs.drop_last();
    if vs.len() == 1 {
        assert(dl.len() == 0);
        assert(insert_values(d, k, dl) == d);
        assert(insert_value(d, k, vs.last()) == d.push((k, seq![vs.last()])));
        assert(seq![vs.last()] =~= vs);
    } else {
        lemma_insert_new_name(d, k, dl);
        let e = d.push((k, dl));
        assert(e[d.len() as int].0 == k);
        assert(has_name(e, k));
        let i = name_index(e, k);
        assert(0 <= i < e.len() && e[i].0 == k);
        if i != d.len() {
            assert(e[i] == d[i]);
            assert(has_name(d, k));
        }
        assert(i == d.len());
        assert(e[i].1 == dl);
        assert(insert_value(e, k, vs.last()) == e.update(i, (k, dl.push(vs.last()))));
        assert(dl.push(vs.last()) =~= vs);
        assert(e.update(d.len() as int, (k, dl.push(vs.last()))) =~= d.push((k, vs)));
    }
}

proof fn lemma_rebuild(e: Seq<Entry>)
    requires
        entries_clean(e),
    ensures
        parse_lines(Seq::empty(), entry_lines(e)) == e,
    decreases e.len(),
{
    if e.len() > 0 {
        let d = e.drop_last();
        assert(entries_clean(d)) by {
            assert forall|j: int| 0 <= j < d.len() implies clean_entry(#[trigger] d[j].0, d[j].1) by {
                assert(d[j] == e[j]);
            }
        }
        lemma_rebuild(d);
        let (k, vs) = e.last();
        assert(clean_entry(e[e.len() - 1].0, e[e.len() - 1].1));
        lemma_clean_round_trip(k, vs);
        let ls = entry_lines(e);
        assert(ls.drop_last() =~= entry_lines(d));
        assert(!has_name(d, k)) by {
            if has_name(d, k) {
                let j = choose|j: int| 0 <= j < d.len() && d[j].0 == k;
                assert(e[j].0 == e[e.len() - 1].0);
            }
        }
        lemma_insert_new_name(d, k, vs);
        assert(d.push((k, vs)) =~= e);
    }
}

proof fn lemma_format_lines(e: Seq<Entry>)
    ensures
        format_entries(e) == lines_text(entry_lines(e)),
    decreases e.len(),
{
    if e.len() > 0 {
        lemma_format_lines(e.drop_last());
        if e.last().1.len() > 0 {
            assert(entry_lines(e).drop_last() =~= entry_lines(e.drop_last()));
        }
    }
}

/// Headers round-trip through their wire form: parsing any lines into empty
/// headers, formatting the result, and parsing the formatted lines again
/// gives the same headers, so every name keeps exactly its ordered values.
pub proof fn lemma_headers_round_trip(ls: Seq<Seq<char>>)
    ensures
        ({
            let h = parse_lines(Seq::empty(), ls);
            &&& format_entries(h) == lines_text(entry_lines(h))
            &&& parse_lines(Seq::empty(), entry_lines(h)) == h
            &&& forall|k: Seq<char>|
                lookup(parse_lines(Seq::empty(), entry_lines(h)), k) == #[trigger] lookup(h, k)
        }),
{
    let h = parse_lines(Seq::empty(), ls);
    lemma_parse_lines_clean(ls);
    lemma_rebuild(h);
    lemma_format_lines(h);
}

/// Splits a header line into its name and trimmed values.
pub fn split_header_line(line: &str) -> (r: Option<(String, Vec<String>)>)
    ensures
        match r {
            Some(p) => header_line(line@) == Some((p.0@, strs(p.1@))),
            None => header_line(line@) is None,
        },
{
    reveal(header_line);
    let cs = chars_of(line);
    let n = cs.len();
    let mut found: Option<usize> = None;
    let mut count: usize = 0;
    let mut i: usize = 0;
    while i < n
        invariant
            cs@ == line@,
            n == cs@.len(),
            i <= n,
            count <= 2,
            count == 0 ==> (forall|j: int| 0 <= j < i ==> !#[trigger] sep_at(line@, j)),
            count == 1 ==> (found matches Some(f) && f < i && sep_at(line@, f as int) && forall|j: int|
                0 <= j < i && #[trigger] sep_at(line@, j) ==> j == f),
            count >= 2 ==> exists|a: int, b: int|
                a != b && #[trigger] sep_at(line@, a) && #[trigger] sep_at(line@, b),
        decreases n - i,
    {
        if i + 1 < n && cs[i] == ':' && cs[i + 1] == ' ' {
            if count == 1 {
                assert(found matches Some(f) && sep_at(line@, f as int) && f != i
                    && sep_at(line@, i as int));
            }
            if count < 2 {
                count = count + 1;
            }
            if count == 1 {
                found = Some(i);
            }
        }
        i = i + 1;
    }
    if count != 1 {
        proof {
            if count == 0 {
                assert forall|j: int| !#[trigger] sep_at(line@, j) by {
                    if 0 <= j < i {
                    }
                }
            }
        }
        return None;
    }
    let f = found.unwrap();
    proof {
        assert forall|j: int| #[trigger] sep_at(line@, j) implies j == f by {
            if 0 <= j < i {
            }
        }
        assert(one_sep(line@));
        assert(sep_index(line@) == f);
    }
    let name = slice_of(line, 0, f);
    let rest = slice_of(line, f + 2, n);
    let pieces = split_str(rest.as_str(), ',');
    let mut values: Vec<String> = Vec::new();
    let mut j: usize = 0;
    while j < pieces.len()
        invariant
            j <= pieces@.len(),
            pieces@.len() == split_on(rest@, ',').len(),
            forall|k: int| 0 <= k < pieces@.len() ==> #[trigger] pieces@[k]@ == split_on(rest@, ',')[k],
            values@.len() == j,
            forall|k: int| 0 <= k < j ==> #[trigger] values@[k]@ == trim(split_on(rest@, ',')[k]),
        decreases pieces@.len() - j,
    {
        values.push(trim_str(pieces[j].as_str()));
        j = j + 1;
    }
    proof {
        assert(name@ =~= line@.take(f as int));
        assert(rest@ =~= line@.skip(f + 2));
        assert(strs(values@) =~= split_on(line@.skip(f + 2), ',').map_values(
            |p: Seq<char>| trim(p),
        ));
    }
    Some((name, values))
}

/// Ordered multi-valued header map.
#[derive(Clone, Debug)]
pub struct Headers {
    names: Vec<String>,
    values: Vec<Vec<String>>,
}

impl View for Headers {
    type V = Seq<Entry>;

    closed spec fn view(&self) -> Seq<Entry> {
        Seq::new(self.names@.len(), |i: int| (self.names@[i]@, strs(self.values@[i]@)))
    }
}

pub fn copy_strings(v: &Vec<String>) -> (r: Vec<String>)
    ensures
        strs(r@) == strs(v@),
{
    let mut r: Vec<String> = Vec::new();
    let mut i: usize = 0;
    while i < v.len()
        invariant
            i <= v@.len(),
            r@.len() == i,
            forall|k: int| 0 <= k < i ==> #[trigger] r@[k]@ == v@[k]@,
        decreases v@.len() - i,
    {
        r.push(v[i].clone());
        i = i + 1;
    }
    assert(strs(r@) =~= strs(v@));
    r
}

impl Headers {
    /// Names are unique and each has its list of values.
    pub closed spec fn wf(&self) -> bool {
        &&& self.names@.len() == self.values@.len()
        &&& unique_names(self@)
    }

    pub fn new() -> (r: Headers)
        ensures
            r.wf(),
            r@ == Seq::<Entry>::empty(),
    {
        let r = Headers { names: Vec::new(), values: Vec::new() };
        assert(r@ =~= Seq::<Entry>::empty());
        r
    }

    /// Headers holding the pairs of `data`; values of a repeated name are
    /// appended in order, and a name given no values is recorded with none.
    pub fn with_data(data: Vec<(String, Vec<String>)>) -> (r: Headers)
        ensures
            r.wf(),
            r@ == insert_pairs(
                Seq::empty(),
                data@.map_values(|p: (String, Vec<String>)| (p.0@, strs(p.1@))),
            ),
            forall|j: int| 0 <= j < data@.len() ==> has_name(r@, #[trigger] data@[j].0@),
    {
        let ghost d = data@.map_values(|p: (String, Vec<String>)| (p.0@, strs(p.1@)));
        let mut h = Headers::new();
        let mut i: usize = 0;
        while i < data.len()
            invariant
                d == data@.map_values(|p: (String, Vec<String>)| (p.0@, strs(p.1@))),
                i <= data@.len(),
                h.wf(),
                h@ == insert_pairs(Seq::empty(), d.take(i as int)),
                forall|j: int| 0 <= j < i ==> has_name(h@, #[trigger] data@[j].0@),
            decreases data@.len() - i,
        {
            proof {
                assert(d.take(i + 1).drop_last() =~= d.take(i as int));
            }
            let ghost before = h@;
            h.add_name(data[i].0.as_str());
            let ghost mid = h@;
            h.insert_all(data[i].0.as_str(), &data[i].1);
            proof {
                assert forall|j: int| 0 <= j <= i implies has_name(h@, #[trigger] data@[j].0@) by {
                    if j < i {
                        if !has_name(before, data@[j].0@) {
                        } else {
                            let w = choose|w: int| 0 <= w < before.len() && before[w].0 == data@[j].0@;
                            assert(mid[w] == before[w]);
                        }
                    } else {
                        if has_name(before, data@[j].0@) {
                            let w = choose|w: int| 0 <= w < before.len() && before[w].0 == data@[j].0@;
                            assert(mid[w] == before[w]);
                        } else {
                            assert(mid[before.len() as int].0 == data@[j].0@);
                        }
                    }
                    lemma_insert_values_keeps_names(mid, data@[i as int].0@, strs(data@[i as int].1@), data@[j].0@);
                }
            }
            i = i + 1;
        }
        assert(d.take(data@.len() as int) =~= d);
        h
    }

    /// Records `name`, with no values where it is new.
    fn add_name(&mut self, name: &str)
        requires
            old(self).wf(),
        ensures
            final(self).wf(),
            final(self)@ == add_name(old(self)@, name@),
    {
        match self.position(name) {
            Some(_) => {},
            None => {
                self.names.push(String::from_str(name));
                self.values.push(Vec::new());
                proof {
                    assert(strs(Seq::<String>::empty()) =~= Seq::<Seq<char>>::empty());
                    assert(self@ =~= add_name(old(self)@, name@));
                }
            },
        }
    }

    fn position(&self, key: &str) -> (r: Option<usize>)
        requires
            self.wf(),
        ensures
            match r {
                Some(i) => has_name(self@, key@) && i == name_index(self@, key@) && i
                    < self.names@.len(),
                None => !has_name(self@, key@),
            },
    {
        let k = String::from_str(key);
        let mut i: usize = 0;
        while i < self.names.len()
            invariant
                self.wf(),
                k@ == key@,
                i <= self.names@.len(),
                forall|j: int| 0 <= j < i ==> self@[j].0 != key@,
            decreases self.names@.len() - i,
        {
            if self.names[i] == k {
                proof {
                    assert(self@[i as int].0 == key@);
                    assert(has_name(self@, key@));
                    let c = name_index(self@, key@);
                    assert(self@[c].0 == key@);
                }
                return Some(i);
            }
            i = i + 1;
        }
        None
    }

    /// Appends `value` to the values of `name`.
    pub fn insert(&mut self, name: &str, value: &str)
        requires
            old(self).wf(),
        ensures
            final(self).wf(),
            final(self)@ == insert_value(old(self)@, name@, value@),
    {
        match self.position(name) {
            Some(i) => {
                let mut vs = copy_strings(&self.values[i]);
                vs.push(String::from_str(value));
                proof {
                    assert(strs(vs@) =~= old(self)@[i as int].1.push(value@));
                }
                self.values.set(i, vs);
                proof {
                    assert(self.values@[i as int] == vs);
                    assert(self.names@ == old(self).names@);
                    assert(self@[i as int] == (name@, old(self)@[i as int].1.push(value@)));
                    assert(self@ =~= insert_value(old(self)@, name@, value@));
                }
            },
            None => {
                self.names.push(String::from_str(name));
                let mut vs: Vec<String> = Vec::new();
                vs.push(String::from_str(value));
                self.values.push(vs);
                proof {
                    assert(strs(vs@) =~= seq![value@]);
                    assert(self@ =~= insert_value(old(self)@, name@, value@));
                }
            },
        }
    }

    fn insert_all(&mut self, name: &str, values: &Vec<String>)
        requires
            old(self).wf(),
        ensures
            final(self).wf(),
            final(self)@ == insert_values(old(self)@, name@, strs(values@)),
    {
        let mut j: usize = 0;
        while j < values.len()
            invariant
                j <= values@.len(),
                self.wf(),
                self@ == insert_values(old(self)@, name@, strs(values@).take(j as int)),
            decreases values@.len() - j,
        {
            proof {
                assert(strs(values@).take(j + 1).drop_last() =~= strs(values@).take(j as int));
            }
            self.insert(name, values[j].as_str());
            j = j + 1;
        }
        assert(strs(values@).take(values@.len() as int) =~= strs(values@));
    }

    /// Reads one `Name: v1, v2` line: the trimmed name gets each trimmed value.
    /// A line without exactly one `": "` is refused and changes nothing.
    pub fn parse(&mut self, header: &str) -> (r: Result<(), ParseError>)
        requires
            old(self).wf(),
        ensures
            final(self).wf(),
            match header_line(header@) {
                Some(p) => r is Ok && final(self)@ == insert_values(old(self)@, trim(p.0), p.1),
                None => r == Err::<(), ParseError>(ParseError::InvalidHeaderLine) && final(self)@
                    == old(self)@,
            },
            final(self)@ == parse_lines(old(self)@, seq![header@]),
    {
        proof {
            assert(seq![header@].drop_last() =~= Seq::<Seq<char>>::empty());
            assert(seq![header@].last() == header@);
            assert(parse_lines(old(self)@, Seq::<Seq<char>>::empty()) == old(self)@);
        }
        match split_header_line(header) {
            Some(p) => {
                let name = trim_str(p.0.as_str());
                self.insert_all(name.as_str(), &p.1);
                Ok(())
            },
            None => Err(ParseError::InvalidHeaderLine),
        }
    }

    /// The values of `key`, or `None` where it has none.
    pub fn find(&self, key: &str) -> (r: Option<Vec<String>>)
        requires
            self.wf(),
        ensures
            match lookup(self@, key@) {
                Some(vs) => if vs.len() > 0 {
                    r matches Some(v) && strs(v@) == vs
                } else {
                    r is None
                },
                None => r is None,
            },
    {
        match self.position(key) {
            Some(i) => {
                if self.values[i].len() == 0 {
                    None
                } else {
                    Some(copy_strings(&self.values[i]))
                }
            },
            None => None,
        }
    }

    pub fn has(&self, key: &str) -> (r: bool)
        requires
            self.wf(),
        ensures
            r == has_name(self@, key@),
    {
        self.position(key).is_some()
    }

    /// Every header with its values, in the order of the entries.
    pub fn all(&self) -> (r: Vec<(String, Vec<String>)>)
        requires
            self.wf(),
        ensures
            r@.map_values(|p: (String, Vec<String>)| (p.0@, strs(p.1@))) == self@,
    {
        let mut r: Vec<(String, Vec<String>)> = Vec::new();
        let mut i: usize = 0;
        while i < self.names.len()
            invariant
                self.wf(),
                i <= self.names@.len(),
                r@.len() == i,
                forall|k: int|
                    0 <= k < i ==> (#[trigger] r@[k]).0@ == self@[k].0 && strs(r@[k].1@)
                        == self@[k].1,
            decreases self.names@.len() - i,
        {
            r.push((self.names[i].clone(), copy_strings(&self.values[i])));
            i = i + 1;
        }
        assert(r@.map_values(|p: (String, Vec<String>)| (p.0@, strs(p.1@))) =~= self@);
        r
    }

    /// The headers in wire form: `Name: v1, v2\r\n` for each name with values.
    pub fn to_string(&self) -> (r: String)
        requires
            self.wf(),
        ensures
            r@ == format_entries(self@),
    {
        let mut r = String::new();
        let mut i: usize = 0;
        while i < self.names.len()
            invariant
                self.wf(),
                i <= self.names@.len(),
                r@ == format_entries(self@.take(i as int)),
            decreases self.names@.len() - i,
        {
            proof {
                assert(self@.take(i + 1).drop_last() =~= self@.take(i as int));
            }
            let vs = &self.values[i];
            if vs.len() > 0 {
                r.append(self.names[i].as_str());
                r.append(": ");
                let mut j: usize = 0;
                let ghost before = r@;
                while j < vs.len()
                    invariant
                        0 < vs@.len(),
                        j <= vs@.len(),
                        j == 0 ==> r@ == before,
                        j > 0 ==> r@ == before + join_values(strs(vs@).take(j as int)),
                    decreases vs@.len() - j,
                {
                    proof {
                        assert(strs(vs@).take(j + 1).drop_last() =~= strs(vs@).take(j as int));
                        reveal_strlit(", ");
                    }
                    if j > 0 {
                        r.append(", ");
                    }
                    r.append(vs[j].as_str());
                    j = j + 1;
                    proof {
                        if j == 1 {
                            assert(r@ =~= before + join_values(strs(vs@).take(1)));
                        } else {
                            assert(r@ =~= before + join_values(strs(vs@).take(j as int)));
                        }
                    }
                }
                r.append("\r\n");
                proof {
                    reveal_strlit(": ");
                    reveal_strlit("\r\n");
                    assert(strs(vs@).take(vs@.len() as int) =~= strs(vs@));
                    assert(r@ =~= format_entries(self@.take(i + 1)));
                }
            }
            i = i + 1;
        }
        assert(self@.take(self.names@.len() as int) =~= self@);
        r
    }
}

} // verus!
