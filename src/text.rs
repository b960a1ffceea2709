//! Character-level helpers shared by the parsers and formatters: whitespace
//! trimming, splitting on a separator, and decimal rendering.

use vstd::prelude::*;
use vstd::string::*;

verus! {

/// The Unicode `White_Space` property, as `char::is_whitespace` defines it.
pub open spec fn is_ws(c: char) -> bool {
    let n = c as u32;
    (0x9 <= n <= 0xd) || n == 0x20 || n == 0x85 || n == 0xa0 || n == 0x1680 || (0x2000 <= n
        <= 0x200a) || n == 0x2028 || n == 0x2029 || n == 0x202f || n == 0x205f || n == 0x3000
}

pub fn is_whitespace(c: char) -> (r: bool)
    ensures
        r == is_ws(c),
{
    let n = c as u32;
    (0x9 <= n && n <= 0xd) || n == 0x20 || n == 0x85 || n == 0xa0 || n == 0x1680 || (0x2000 <= n
        && n <= 0x200a) || n == 0x2028 || n == 0x2029 || n == 0x202f || n == 0x205f || n == 0x3000
}

/// `s` without its leading whitespace.
pub open spec fn trim_front(s: Seq<char>) -> Seq<char>
    decreases s.len(),
{
    if s.len() > 0 && is_ws(s[0]) {
        trim_front(s.drop_first())
    } else {
        s
    }
}

/// `s` without its trailing whitespace.
pub open spec fn trim_back(s: Seq<char>) -> Seq<char>
    decreases s.len(),
{
    if s.len() > 0 && is_ws(s.last()) {
        trim_back(s.drop_last())
    } else {
        s
    }
}

/// `s` without leading and trailing whitespace (what `str::trim` returns).
pub open spec fn trim(s: Seq<char>) -> Seq<char> {
    trim_back(trim_front(s))
}

/// Neither end of `s` is whitespace.
pub open spec fn is_trimmed(s: Seq<char>) -> bool {
    s.len() == 0 || (!is_ws(s[0]) && !is_ws(s.last()))
}

/// The pieces of `s` between occurrences of `c` (what `str::split(c)` yields).
pub open spec fn split_on(s: Seq<char>, c: char) -> Seq<Seq<char>>
    decreases s.len(),
{
    if s.len() == 0 {
        seq![Seq::<char>::empty()]
    } else {
        let rest = split_on(s.drop_last(), c);
        if s.last() == c {
            rest.push(Seq::<char>::empty())
        } else {
            rest.update(rest.len() - 1, rest.last().push(s.last()))
        }
    }
}

proof fn lemma_trim_front_index(s: Seq<char>, a: int)
    requires
        0 <= a <= s.len(),
        forall|i: int| 0 <= i < a ==> is_ws(#[trigger] s[i]),
        a == s.len() || !is_ws(s[a]),
    ensures
        trim_front(s) == s.subrange(a, s.len() as int),
    decreases a,
{
    if a == 0 {
        assert(s.subrange(0, s.len() as int) =~= s);
    } else {
        let t = s.drop_first();
        assert forall|i: int| 0 <= i < a - 1 implies is_ws(#[trigger] t[i]) by {
            assert(t[i] == s[i + 1]);
        }
        lemma_trim_front_index(t, a - 1);
        assert(t.subrange(a - 1, t.len() as int) =~= s.subrange(a, s.len() as int));
    }
}

proof fn lemma_trim_back_index(s: Seq<char>, b: int)
    requires
        0 <= b <= s.len(),
        forall|i: int| b <= i < s.len() ==> is_ws(#[trigger] s[i]),
        b == 0 || !is_ws(s[b - 1]),
    ensures
        trim_back(s) == s.subrange(0, b),
    decreases s.len() - b,
{
    if b == s.len() {
        assert(s.subrange(0, b) =~= s);
    } else {
        let t = s.drop_last();
        assert forall|i: int| b <= i < t.len() implies is_ws(#[trigger] t[i]) by {
            assert(t[i] == s[i]);
        }
        lemma_trim_back_index(t, b);
        assert(t.subrange(0, b) =~= s.subrange(0, b));
    }
}

/// The characters of `s`, one by one.
pub fn chars_of(s: &str) -> (r: Vec<char>)
    ensures
        r@ == s@,
{
    let n = s.unicode_len();
    let mut v: Vec<char> = Vec::new();
    let mut i: usize = 0;
    while i < n
        invariant
            n == s@.len(),
            i <= n,
            v@ == s@.take(i as int),
        decreases n - i,
    {
        v.push(s.get_char(i));
        i = i + 1;
        assert(v@ =~= s@.take(i as int));
    }
    assert(v@ =~= s@);
    v
}

/// Owned copy of the characters `from..to` of `s`.
pub fn slice_of(s: &str, from: usize, to: usize) -> (r: String)
    requires
        from <= to <= s@.len(),
    ensures
        r@ == s@.subrange(from as int, to as int),
{
    String::from_str(s.substring_char(from, to))
}

/// `s` with leading and trailing whitespace removed.
pub fn trim_str(s: &str) -> (r: String)
    ensures
        r@ == trim(s@),
        is_trimmed(r@),
{
    let cs = chars_of(s);
    let n = cs.len();
    let mut a: usize = 0;
    while a < n && is_whitespace(cs[a])
        invariant
            cs@ == s@,
            n == cs@.len(),
            a <= n,
            forall|i: int| 0 <= i < a ==> is_ws(#[trigger] cs@[i]),
        decreases n - a,
    {
        a = a + 1;
    }
    let mut b: usize = n;
    while b > a && is_whitespace(cs[b - 1])
        invariant
            cs@ == s@,
            n == cs@.len(),
            a <= b <= n,
            forall|i: int| b <= i < n ==> is_ws(#[trigger] cs@[i]),
        decreases b,
    {
        b = b - 1;
    }
    proof {
        lemma_trim_front_index(s@, a as int);
        let f = s@.subrange(a as int, n as int);
        assert forall|i: int| b - a <= i < f.len() implies is_ws(#[trigger] f[i]) by {
            assert(f[i] == s@[a + i]);
        }
        if b > a {
            assert(f[b - a - 1] == s@[b - 1]);
        }
        lemma_trim_back_index(f, b - a);
        assert(f.subrange(0, b - a) =~= s@.subrange(a as int, b as int));
        if b > a {
            assert(!is_ws(s@[a as int]));
        }
    }
    slice_of(s, a, b)
}

/// The pieces of `s` between occurrences of `c`, in order.
pub fn split_str(s: &str, c: char) -> (r: Vec<String>)
    ensures
        r@.len() == split_on(s@, c).len(),
        forall|i: int| 0 <= i < r@.len() ==> #[trigger] r@[i]@ == split_on(s@, c)[i],
{
    let cs = chars_of(s);
    let n = cs.len();
    let mut done: Vec<String> = Vec::new();
    let mut start: usize = 0;
    let mut i: usize = 0;
    while i < n
        invariant
            cs@ == s@,
            n == cs@.len(),
            start <= i <= n,
            split_on(s@.take(i as int), c).len() == done@.len() + 1,
            forall|j: int|
                0 <= j < done@.len() ==> #[trigger] done@[j]@ == split_on(s@.take(i as int), c)[j],
            split_on(s@.take(i as int), c).last() == s@.subrange(start as int, i as int),
        decreases n - i,
    {
        let ghost prev = split_on(s@.take(i as int), c);
        proof {
            assert(s@.take(i + 1).drop_last() =~= s@.take(i as int));
            assert(s@.take(i + 1).last() == s@[i as int]);
        }
        if cs[i] == c {
            done.push(slice_of(s, start, i));
            start = i + 1;
            i = i + 1;
            proof {
                assert(s@.subrange(start as int, i as int) =~= Seq::<char>::empty());
            }
        } else {
            i = i + 1;
            proof {
                assert(s@.subrange(start as int, i as int) =~= s@.subrange(
                    start as int,
                    i - 1,
                ).push(s@[i - 1]));
            }
        }
    }
    done.push(slice_of(s, start, n));
    proof {
        assert(s@.take(n as int) =~= s@);
    }
    done
}

/// The decimal digit `d`, for `d < 10`.
pub open spec fn digit(d: nat) -> char {
    if d == 0 {
        '0'
    } else if d == 1 {
        '1'
    } else if d == 2 {
        '2'
    } else if d == 3 {
        '3'
    } else if d == 4 {
        '4'
    } else if d == 5 {
        '5'
    } else if d == 6 {
        '6'
    } else if d == 7 {
        '7'
    } else if d == 8 {
        '8'
    } else {
        '9'
    }
}

/// The decimal notation of `n`, without leading zeros.
pub open spec fn decimal(n: nat) -> Seq<char>
    decreases n,
{
    if n < 10 {
        seq![digit(n)]
    } else {
        decimal(n / 10).push(digit(n % 10))
    }
}

fn digit_str(d: u64) -> (r: &'static str)
    requires
        d < 10,
    ensures
        r@ == seq![digit(d as nat)],
{
    if d == 0 {
        proof { reveal_strlit("0"); }
        "0"
    } else if d == 1 {
        proof { reveal_strlit("1"); }
        "1"
    } else if d == 2 {
        proof { reveal_strlit("2"); }
        "2"
    } else if d == 3 {
        proof { reveal_strlit("3"); }
        "3"
    } else if d == 4 {
        proof { reveal_strlit("4"); }
        "4"
    } else if d == 5 {
        proof { reveal_strlit("5"); }
        "5"
    } else if d == 6 {
        proof { reveal_strlit("6"); }
        "6"
    } else if d == 7 {
        proof { reveal_strlit("7"); }
        "7"
    } else if d == 8 {
        proof { reveal_strlit("8"); }
        "8"
    } else {
        proof { reveal_strlit("9"); }
        "9"
    }
}

/// The decimal notation of `n`.
pub fn decimal_string(n: u64) -> (r: String)
    ensures
        r@ == decimal(n as nat),
    decreases n,
{
    if n < 10 {
        let r = String::from_str(digit_str(n));
        assert(r@ =~= seq![digit(n as nat)]);
        r
    } else {
        let mut r = decimal_string(n / 10);
        r.append(digit_str(n % 10));
        r
    }
}

/// The decimal notation of a signed number, with a `-` in front when it is negative.
pub open spec fn signed_decimal(n: int) -> Seq<char> {
    if n < 0 {
        seq!['-'] + decimal((-n) as nat)
    } else {
        decimal(n as nat)
    }
}

pub fn signed_decimal_string(n: i32) -> (r: String)
    ensures
        r@ == signed_decimal(n as int),
{
    if n < 0 {
        let m: u64 = (0 - (n as i64)) as u64;
        let mut r = String::from_str("-");
        proof { reveal_strlit("-"); }
        let d = decimal_string(m);
        r.append(d.as_str());
        r
    } else {
        decimal_string(n as u64)
    }
}

/// `s` does not hold `c`.
pub open spec fn lacks(s: Seq<char>, c: char) -> bool {
    forall|i: int| 0 <= i < s.len() ==> s[i] != c
}

/// There is a `": "` at position `i` of `s`.
pub open spec fn sep_at(s: Seq<char>, i: int) -> bool {
    0 <= i && i + 1 < s.len() && s[i] == ':' && s[i + 1] == ' '
}

/// `s` holds no `": "`.
pub open spec fn no_colon_space(s: Seq<char>) -> bool {
    forall|i: int| !#[trigger] sep_at(s, i)
}

proof fn lemma_cut_front(s: Seq<char>, c: char)
    requires
        s.len() > 0,
    ensures
        lacks(s, c) ==> lacks(s.drop_first(), c),
        no_colon_space(s) ==> no_colon_space(s.drop_first()),
{
    let t = s.drop_first();
    if no_colon_space(s) {
        assert forall|i: int| !#[trigger] sep_at(t, i) by {
            if 0 <= i && i + 1 < t.len() {
                assert(t[i] == s[i + 1] && t[i + 1] == s[i + 2]);
                assert(!sep_at(s, i + 1));
            }
        }
    }
    if lacks(s, c) {
        assert forall|i: int| 0 <= i < t.len() implies t[i] != c by {
            assert(t[i] == s[i + 1]);
        }
    }
}

proof fn lemma_cut_back(s: Seq<char>, c: char)
    requires
        s.len() > 0,
    ensures
        lacks(s, c) ==> lacks(s.drop_last(), c),
        no_colon_space(s) ==> no_colon_space(s.drop_last()),
{
    let t = s.drop_last();
    if no_colon_space(s) {
        assert forall|i: int| !#[trigger] sep_at(t, i) by {
            if 0 <= i && i + 1 < t.len() {
                assert(t[i] == s[i] && t[i + 1] == s[i + 1]);
                assert(!sep_at(s, i));
            }
        }
    }
}

proof fn lemma_trim_front_keeps(s: Seq<char>, c: char)
    ensures
        lacks(s, c) ==> lacks(trim_front(s), c),
        no_colon_space(s) ==> no_colon_space(trim_front(s)),
        trim_front(s).len() == 0 || !is_ws(trim_front(s)[0]),
    decreases s.len(),
{
    if s.len() > 0 && is_ws(s[0]) {
        lemma_cut_front(s, c);
        lemma_trim_front_keeps(s.drop_first(), c);
    }
}

proof fn lemma_trim_back_keeps(s: Seq<char>, c: char)
    ensures
        lacks(s, c) ==> lacks(trim_back(s), c),
        no_colon_space(s) ==> no_colon_space(trim_back(s)),
        trim_back(s).len() == 0 || !is_ws(trim_back(s).last()),
        trim_back(s).len() <= s.len(),
        trim_back(s) == s.take(trim_back(s).len() as int),
    decreases s.len(),
{
    if s.len() > 0 && is_ws(s.last()) {
        lemma_cut_back(s, c);
        lemma_trim_back_keeps(s.drop_last(), c);
        let t = trim_back(s.drop_last());
        assert(s.drop_last().take(t.len() as int) =~= s.take(t.len() as int));
    } else {
        assert(s.take(s.len() as int) =~= s);
    }
}

/// Trimming yields a trimmed text, and keeps the absence of `c` and of `": "`.
pub proof fn lemma_trim(s: Seq<char>, c: char)
    ensures
        is_trimmed(trim(s)),
        lacks(s, c) ==> lacks(trim(s), c),
        no_colon_space(s) ==> no_colon_space(trim(s)),
{
    lemma_trim_front_keeps(s, c);
    lemma_trim_back_keeps(trim_front(s), c);
    let f = trim_front(s);
    let t = trim(s);
    if t.len() > 0 {
        assert(t[0] == f.take(t.len() as int)[0]);
        assert(t[0] == f[0]);
    }
}

/// A trimmed text is its own trim, also behind one space.
pub proof fn lemma_trim_trimmed(v: Seq<char>)
    requires
        is_trimmed(v),
    ensures
        trim(v) == v,
        trim(seq![' '] + v) == v,
{
    assert(trim_front(v) == v);
    assert(trim_back(v) == v);
    let w = seq![' '] + v;
    assert(is_ws(w[0]));
    assert(w.drop_first() =~= v);
    assert(trim_front(w) == trim_front(v));
}

/// The pieces of a split hold neither the separator nor, where the text holds
/// none, a `": "`; the last piece ends the text.
pub proof fn lemma_split_pieces(s: Seq<char>, c: char)
    ensures
        split_on(s, c).len() >= 1,
        forall|k: int| 0 <= k < split_on(s, c).len() ==> lacks(#[trigger] split_on(s, c)[k], c),
        no_colon_space(s) ==> forall|k: int|
            0 <= k < split_on(s, c).len() ==> no_colon_space(#[trigger] split_on(s, c)[k]),
        split_on(s, c).last().len() <= s.len(),
        split_on(s, c).last() == s.skip(s.len() - split_on(s, c).last().len()),
    decreases s.len(),
{
    if s.len() == 0 {
        assert(s.skip(0) =~= Seq::<char>::empty());
    } else {
        let t = s.drop_last();
        lemma_cut_back(s, c);
        lemma_split_pieces(t, c);
        let rest = split_on(t, c);
        let r = split_on(s, c);
        if s.last() == c {
            assert(r.last() =~= s.skip(s.len() as int));
        } else {
            let p = rest.last().push(s.last());
            assert(p =~= s.skip(s.len() - p.len()));
            assert forall|k: int| 0 <= k < r.len() implies lacks(#[trigger] r[k], c) by {
                if k == r.len() - 1 {
                    assert(r[k] == p);
                }
            }
            if no_colon_space(s) {
                assert forall|k: int| 0 <= k < r.len() implies no_colon_space(#[trigger] r[k]) by {
                    if k == r.len() - 1 {
                        assert(r[k] == p);
                        assert forall|i: int| !#[trigger] sep_at(p, i) by {
                            if 0 <= i && i + 1 < p.len() {
                                let o = s.len() - p.len();
                                assert(p[i] == s[o + i] && p[i + 1] == s[o + i + 1]);
                                assert(!sep_at(s, o + i));
                            }
                        }
                    }
                }
            }
        }
    }
}

/// Splitting `a`, the separator and a piece `b` without it: the pieces of
/// `a`, then `b`.
pub proof fn lemma_split_append(a: Seq<char>, c: char, b: Seq<char>)
    requires
        lacks(b, c),
    ensures
        split_on(a + seq![c] + b, c) == split_on(a, c).push(b),
    decreases b.len(),
{
    let s = a + seq![c] + b;
    if b.len() == 0 {
        assert(s.drop_last() =~= a);
        assert(b =~= Seq::<char>::empty());
    } else {
        let b0 = b.drop_last();
        assert forall|i: int| 0 <= i < b0.len() implies b0[i] != c by {
            assert(b0[i] == b[i]);
        }
        lemma_split_append(a, c, b0);
        assert(s.drop_last() =~= a + seq![c] + b0);
        assert(s.last() == b.last());
        assert(b0.push(b.last()) =~= b);
        assert(split_on(s, c) =~= split_on(a, c).push(b));
    }
}

/// A text without the separator is one piece.
pub proof fn lemma_split_single(b: Seq<char>, c: char)
    requires
        lacks(b, c),
    ensures
        split_on(b, c) == seq![b],
    decreases b.len(),
{
    if b.len() == 0 {
        assert(b =~= Seq::<char>::empty());
    } else {
        let b0 = b.drop_last();
        assert forall|i: int| 0 <= i < b0.len() implies b0[i] != c by {
            assert(b0[i] == b[i]);
        }
        assert(b[b.len() - 1] != c);
        lemma_split_single(b0, c);
        assert(b0.push(b.last()) =~= b);
        assert(split_on(b, c) =~= seq![b]);
    }
}

} // verus!
