//! Query strings: `key=value` pairs joined by `&`, each key with an ordered
//! list of values.

use vstd::prelude::*;
use vstd::string::*;
use crate::headers::{Entry, Headers, insert_value, lookup, strs};
use crate::text::{chars_of, slice_of, split_on, split_str, trim, trim_str};

verus! {

/// `p` without its leading `=` characters.
pub open spec fn skip_eqs(p: Seq<char>) -> Seq<char>
    decreases p.len(),
{
    if p.len() > 0 && p[0] == '=' {
        skip_eqs(p.drop_first())
    } else {
        p
    }
}

pub open spec fn has_eq(q: Seq<char>) -> bool {
    exists|i: int| 0 <= i < q.len() && q[i] == '='
}

pub open spec fn first_eq(q: Seq<char>) -> int {
    choose|i: int| 0 <= i < q.len() && q[i] == '=' && forall|j: int| 0 <= j < i ==> q[j] != '='
}

/// The pair that one `&`-separated piece holds: leading `=` are skipped, the
/// key runs to the next `=` and the value is what follows it (empty without
/// one). A piece with nothing left holds no pair.
pub open spec fn query_pair(p: Seq<char>) -> Option<(Seq<char>, Seq<char>)> {
    let q = skip_eqs(p);
    if q.len() == 0 {
        None
    } else if has_eq(q) {
        Some((q.take(first_eq(q)), q.skip(first_eq(q) + 1)))
    } else {
        Some((q, Seq::empty()))
    }
}

/// `e` with the pairs of `pieces` inserted in order.
pub open spec fn insert_pieces(e: Seq<Entry>, pieces: Seq<Seq<char>>) -> Seq<Entry>
    decreases pieces.len(),
{
    if pieces.len() == 0 {
        e
    } else {
        let prev = insert_pieces(e, pieces.drop_last());
        match query_pair(pieces.last()) {
            Some(kv) => insert_value(prev, kv.0, kv.1),
            None => prev,
        }
    }
}

/// The entries of a query string; a blank one has none.
pub open spec fn query_entries(s: Seq<char>) -> Seq<Entry> {
    if trim(s).len() == 0 {
        Seq::empty()
    } else {
        insert_pieces(Seq::empty(), split_on(s, '&'))
    }
}

/// `k=v` for each value, joined by `&`.
pub open spec fn param_items(k: Seq<char>, vs: Seq<Seq<char>>) -> Seq<char>
    decreases vs.len(),
{
    if vs.len() == 0 {
        Seq::empty()
    } else if vs.len() == 1 {
        k + seq!['='] + vs[0]
    } else {
        param_items(k, vs.drop_last()) + seq!['&'] + k + seq!['='] + vs.last()
    }
}

/// One parameter in wire form; a key with several values carries `[]`.
pub open spec fn format_param(k: Seq<char>, vs: Seq<Seq<char>>) -> Seq<char> {
    if vs.len() > 1 {
        param_items(k + seq!['[', ']'], vs)
    } else {
        param_items(k, vs)
    }
}

/// All parameters in wire form, joined by `&`.
pub open spec fn format_query(e: Seq<Entry>) -> Seq<char>
    decreases e.len(),
{
    if e.len() == 0 {
        Seq::empty()
    } else if e.len() == 1 {
        format_param(e[0].0, e[0].1)
    } else {
        format_query(e.drop_last()) + seq!['&'] + format_param(e.last().0, e.last().1)
    }
}

proof fn lemma_skip_eqs_index(p: Seq<char>, a: int)
    requires
        0 <= a <= p.len(),
        forall|i: int| 0 <= i < a ==> #[trigger] p[i] == '=',
        a == p.len() || p[a] != '=',
    ensures
        skip_eqs(p) == p.skip(a),
    decreases a,
{
    if a == 0 {
        assert(p.skip(0) =~= p);
    } else {
        let t = p.drop_first();
        assert forall|i: int| 0 <= i < a - 1 implies #[trigger] t[i] == '=' by {
            assert(t[i] == p[i + 1]);
        }
        lemma_skip_eqs_index(t, a - 1);
        assert(t.skip(a - 1) =~= p.skip(a));
    }
}

/// The pair held by one `&`-separated piece of a query string.
pub fn split_query_pair(piece: &str) -> (r: Option<(String, String)>)
    ensures
        match query_pair(piece@) {
            Some(kv) => r matches Some(p) && p.0@ == kv.0 && p.1@ == kv.1,
            None => r is None,
        },
{
    let cs = chars_of(piece);
    let n = cs.len();
    let mut a: usize = 0;
    while a < n && cs[a] == '='
        invariant
            cs@ == piece@,
            n == cs@.len(),
            a <= n,
            forall|i: int| 0 <= i < a ==> #[trigger] cs@[i] == '=',
        decreases n - a,
    {
        a = a + 1;
    }
    proof {
        lemma_skip_eqs_index(piece@, a as int);
    }
    let ghost q = piece@.skip(a as int);
    if a == n {
        return None;
    }
    let mut e: usize = a;
    while e < n && cs[e] != '='
        invariant
            cs@ == piece@,
            n == cs@.len(),
            a <= e <= n,
            forall|i: int| a <= i < e ==> #[trigger] cs@[i] != '=',
        decreases n - e,
    {
        e = e + 1;
    }
    if e == n {
        proof {
            assert forall|i: int| 0 <= i < q.len() implies q[i] != '=' by {
                assert(q[i] == piece@[a + i]);
            }
        }
        Some((slice_of(piece, a, n), String::new()))
    } else {
        proof {
            let f = (e - a) as int;
            assert(q[f] == '=');
            assert forall|j: int| 0 <= j < f implies q[j] != '=' by {
                assert(q[j] == piece@[a + j]);
            }
            let c = first_eq(q);
            assert(has_eq(q));
            if c < f {
                assert(q[c] != '=');
            }
            if c > f {
                assert(q[f] != '=');
            }
            assert(q.take(f) =~= piece@.subrange(a as int, e as int));
            assert(q.skip(f + 1) =~= piece@.subrange(e + 1, n as int));
        }
        Some((slice_of(piece, a, e), slice_of(piece, e + 1, n)))
    }
}

/// Query parameters, each key with its values in order.
#[derive(Debug)]
pub struct Query {
    data: Headers,
    query_string: Option<String>,
}

impl View for Query {
    type V = Seq<Entry>;

    closed spec fn view(&self) -> Seq<Entry> {
        self.data@
    }
}

impl Query {
    pub closed spec fn wf(&self) -> bool {
        self.data.wf()
    }

    /// The text the parameters were read from, where there is one.
    pub closed spec fn source(&self) -> Option<Seq<char>> {
        match self.query_string {
            Some(s) => Some(s@),
            None => None,
        }
    }

    pub fn new() -> (r: Query)
        ensures
            r.wf(),
            r@ == Seq::<Entry>::empty(),
            r.source() is None,
    {
        Query { data: Headers::new(), query_string: None }
    }

    /// The parameters of a query string such as `a=1&b=2&a=3`.
    pub fn from_str(query_string: &str) -> (r: Query)
        ensures
            r.wf(),
            r@ == query_entries(query_string@),
            r.source() == Some(query_string@),
    {
        let mut data = Headers::new();
        let t = trim_str(query_string);
        if t.as_str().unicode_len() > 0 {
            let pieces = split_str(query_string, '&');
            let ghost ps = split_on(query_string@, '&');
            let mut i: usize = 0;
            while i < pieces.len()
                invariant
                    pieces@.len() == ps.len(),
                    forall|k: int| 0 <= k < ps.len() ==> #[trigger] pieces@[k]@ == ps[k],
                    i <= ps.len(),
                    data.wf(),
                    data@ == insert_pieces(Seq::empty(), ps.take(i as int)),
                decreases ps.len() - i,
            {
                proof {
                    assert(ps.take(i + 1).drop_last() =~= ps.take(i as int));
                }
                match split_query_pair(pieces[i].as_str()) {
                    Some(kv) => data.insert(kv.0.as_str(), kv.1.as_str()),
                    None => {},
                }
                i = i + 1;
            }
            assert(ps.take(ps.len() as int) =~= ps);
        }
        Query { data, query_string: Some(String::from_str(query_string)) }
    }

    /// The values of `name`, or `None` where it has none.
    pub fn get(&self, name: &str) -> (r: Option<Vec<String>>)
        requires
            self.wf(),
        ensures
            match lookup(self@, name@) {
                Some(vs) => if vs.len() > 0 {
                    r matches Some(v) && strs(v@) == vs
                } else {
                    r is None
                },
                None => r is None,
            },
    {
        self.data.find(name)
    }

    /// The text the parameters were read from, where it was kept.
    pub fn query_string(&self) -> (r: Option<&str>)
        ensures
            match self.source() {
                Some(s) => r matches Some(t) && t@ == s,
                None => r is None,
            },
    {
        match &self.query_string {
            Some(s) => Some(s.as_str()),
            None => None,
        }
    }

    /// The parameters in wire form, such as `a[]=1&a[]=3&b=2`.
    pub fn to_string(&self) -> (r: String)
        requires
            self.wf(),
        ensures
            r@ == format_query(self@),
    {
        let all = self.data.all();
        let ghost e = self@;
        let mut r = String::new();
        let mut i: usize = 0;
        while i < all.len()
            invariant
                all@.map_values(|p: (String, Vec<String>)| (p.0@, strs(p.1@))) == e,
                i <= all@.len(),
                r@ == format_query(e.take(i as int)),
            decreases all@.len() - i,
        {
            proof {
                assert(e.take(i + 1).drop_last() =~= e.take(i as int));
                assert(e[i as int] == (all@[i as int].0@, strs(all@[i as int].1@)));
                reveal_strlit("&");
            }
            let p = format_query_param(all[i].0.as_str(), &all[i].1);
            if i > 0 {
                r.append("&");
            }
            r.append(p.as_str());
            i = i + 1;
            proof {
                if i == 1 {
                    assert(r@ =~= format_query(e.take(1)));
                } else {
                    assert(r@ =~= format_query(e.take(i as int)));
                }
            }
        }
        assert(e.take(all@.len() as int) =~= e);
        r
    }
}

/// One parameter in wire form: `k=v`, or `k[]=v1&k[]=v2` for several values.
pub fn format_query_param(k: &str, v: &Vec<String>) -> (r: String)
    ensures
        r@ == format_param(k@, strs(v@)),
{
    let mut key = String::from_str(k);
    if v.len() > 1 {
        key.append("[]");
        proof { reveal_strlit("[]"); }
    }
    let ghost kk = key@;
    proof {
        if v@.len() > 1 {
            assert(kk =~= k@ + seq!['[', ']']);
        }
    }
    let mut r = String::new();
    let mut i: usize = 0;
    while i < v.len()
        invariant
            key@ == kk,
            i <= v@.len(),
            r@ == param_items(kk, strs(v@).take(i as int)),
        decreases v@.len() - i,
    {
        proof {
            assert(strs(v@).take(i + 1).drop_last() =~= strs(v@).take(i as int));
            reveal_strlit("&");
            reveal_strlit("=");
        }
        if i > 0 {
            r.append("&");
        }
        r.append(key.as_str());
        r.append("=");
        r.append(v[i].as_str());
        i = i + 1;
        proof {
            if i == 1 {
                assert(r@ =~= param_items(kk, strs(v@).take(1)));
            } else {
                assert(r@ =~= param_items(kk, strs(v@).take(i as int)));
            }
        }
    }
    assert(strs(v@).take(v@.len() as int) =~= strs(v@));
    r
}

} // verus!
