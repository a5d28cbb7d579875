//! Parameterized header values: splitting `primary ; k1=v1 ; k2="v2"` into a
//! trimmed primary token and a key-to-value table with lowercased keys and
//! de-quoted values. Used for Content-Type and Content-Disposition.
//!
//! The scanner does not special-case quoted semicolons: a semicolon inside a
//! quoted parameter value terminates the parameter early. That is a known,
//! deliberately preserved limitation.

use vstd::prelude::*;
use vstd::string::StrSliceExecFns;
use crate::text::{to_lower, lower_char, lower_range, subvec, str_chars, str_eq, chars_to_string};

verus! {

/// The whitespace characters trimmed around tokens.
pub open spec fn is_ws(c: char) -> bool {
    c == ' ' || c == '\t' || c == '\r' || c == '\n'
}

pub(crate) fn is_ws_exec(c: char) -> (r: bool)
    ensures
        r == is_ws(c),
{
    c == ' ' || c == '\t' || c == '\r' || c == '\n'
}

/// The position of the first occurrence of `c` in `s`, if any.
pub open spec fn find_char(s: Seq<char>, c: char) -> Option<int>
    decreases s.len(),
{
    if s.len() == 0 {
        None
    } else if s[0] == c {
        Some(0int)
    } else {
        match find_char(s.drop_first(), c) {
            Some(i) => Some(i + 1),
            None => None,
        }
    }
}

/// `find_char` names the first occurrence: the character is there, and no
/// earlier position holds it.
pub proof fn lemma_find_char(s: Seq<char>, c: char)
    ensures
        match find_char(s, c) {
            Some(i) => 0 <= i < s.len() && s[i] == c && forall|j: int| 0 <= j < i ==> s[j] != c,
            None => forall|j: int| 0 <= j < s.len() ==> s[j] != c,
        },
    decreases s.len(),
{
    if s.len() > 0 && s[0] != c {
        let t = s.drop_first();
        lemma_find_char(t, c);
        assert(forall|j: int| 0 <= j < t.len() ==> t[j] == s[j + 1]);
        match find_char(t, c) {
            Some(i) => {
                assert(s[i + 1] == t[i]);
                assert(forall|j: int| 1 <= j < i + 1 ==> s[j] == t[j - 1] && t[j - 1] != c);
            },
            None => {
                assert(forall|j: int| 1 <= j < s.len() ==> s[j] == t[j - 1] && t[j - 1] != c);
            },
        }
    }
}

/// Find the first occurrence of `c` in `v` within `[from, to)`.
pub(crate) fn find_char_in(v: &Vec<char>, from: usize, to: usize, c: char) -> (r: Option<usize>)
    requires
        from <= to <= v@.len(),
    ensures
        match r {
            Some(i) => from <= i < to && v@[i as int] == c && forall|j: int|
                from <= j < i ==> v@[j] != c,
            None => forall|j: int| from <= j < to ==> v@[j] != c,
        },
        r == match find_char(v@.subrange(from as int, to as int), c) {
            Some(i) => Some((i + from) as usize),
            None => None::<usize>,
        },
{
    let ghost sub = v@.subrange(from as int, to as int);
    proof {
        lemma_find_char(sub, c);
    }
    let mut i: usize = from;
    while i < to
        invariant
            from <= i <= to <= v@.len(),
            forall|j: int| from <= j < i ==> v@[j] != c,
        decreases to - i,
    {
        if v[i] == c {
            proof {
                assert(sub[i - from] == c);
                assert(forall|j: int| 0 <= j < i - from ==> sub[j] != c);
            }
            return Some(i);
        }
        i = i + 1;
    }
    proof {
        assert(forall|j: int| 0 <= j < sub.len() ==> sub[j] != c);
    }
    None
}

/// `s` without its leading whitespace.
pub open spec fn trim_start(s: Seq<char>) -> Seq<char>
    decreases s.len(),
{
    if s.len() > 0 && is_ws(s[0]) {
        trim_start(s.drop_first())
    } else {
        s
    }
}

/// `s` without its trailing whitespace.
pub open spec fn trim_end(s: Seq<char>) -> Seq<char>
    decreases s.len(),
{
    if s.len() > 0 && is_ws(s.last()) {
        trim_end(s.drop_last())
    } else {
        s
    }
}

/// `s` without leading and trailing whitespace.
pub open spec fn trim(s: Seq<char>) -> Seq<char> {
    trim_end(trim_start(s))
}

/// Narrow the range `[a, b)` of `v` to its whitespace-trimmed core.
fn trim_range(v: &Vec<char>, a: usize, b: usize) -> (r: (usize, usize))
    requires
        a <= b <= v@.len(),
    ensures
        a <= r.0 <= r.1 <= b,
        v@.subrange(r.0 as int, r.1 as int) == trim(v@.subrange(a as int, b as int)),
{
    let mut lo: usize = a;
    while lo < b && is_ws_exec(v[lo])
        invariant
            a <= lo <= b <= v@.len(),
            trim_start(v@.subrange(a as int, b as int)) == trim_start(
                v@.subrange(lo as int, b as int),
            ),
        decreases b - lo,
    {
        proof {
            assert(v@.subrange(lo as int, b as int).drop_first() =~= v@.subrange(
                lo + 1,
                b as int,
            ));
        }
        lo = lo + 1;
    }
    proof {
        assert(trim_start(v@.subrange(a as int, b as int)) == v@.subrange(lo as int, b as int));
    }
    let mut hi: usize = b;
    while hi > lo && is_ws_exec(v[hi - 1])
        invariant
            lo <= hi <= b <= v@.len(),
            trim_end(v@.subrange(lo as int, b as int)) == trim_end(
                v@.subrange(lo as int, hi as int),
            ),
        decreases hi,
    {
        proof {
            assert(v@.subrange(lo as int, hi as int).drop_last() =~= v@.subrange(
                lo as int,
                hi - 1,
            ));
        }
        hi = hi - 1;
    }
    proof {
        assert(trim_end(v@.subrange(lo as int, hi as int)) == v@.subrange(lo as int, hi as int));
    }
    (lo, hi)
}

/// A quoted token without its quotes: a matching pair of double quotes around
/// a token of length above one is stripped, anything else stays.
pub open spec fn dequote(s: Seq<char>) -> Seq<char> {
    if s.len() > 1 && s[0] == '"' && s.last() == '"' {
        s.subrange(1, s.len() - 1)
    } else {
        s
    }
}

/// The key/value pair a single `key=value` segment contributes: none when the
/// segment has no `=`, else the lowercased trimmed key with the trimmed,
/// de-quoted value.
pub open spec fn seg_params(seg: Seq<char>) -> Seq<(Seq<char>, Seq<char>)> {
    match find_char(seg, '=') {
        Some(i) => seq![
            (to_lower(trim(seg.take(i))), dequote(trim(seg.subrange(i + 1, seg.len() as int)))),
        ],
        None => Seq::empty(),
    }
}

/// The parameter pairs contributed by the semicolon-separated segments of
/// `s`, with `cur` the segment read so far, in input order.
pub open spec fn params_of_acc(s: Seq<char>, cur: Seq<char>) -> Seq<(Seq<char>, Seq<char>)>
    decreases s.len(),
{
    if s.len() == 0 {
        seg_params(cur)
    } else if s[0] == ';' {
        seg_params(cur) + params_of_acc(s.drop_first(), Seq::empty())
    } else {
        params_of_acc(s.drop_first(), cur.push(s[0]))
    }
}

/// Stepping `params_of_acc` a whole segment at a time: the pairs are the
/// current segment's pair followed by the pairs of what comes after the
/// next semicolon.
pub proof fn lemma_params_acc_step(s: Seq<char>, cur: Seq<char>)
    ensures
        params_of_acc(s, cur) == match find_char(s, ';') {
            Some(k) => seg_params(cur + s.take(k)) + params_of_acc(
                s.subrange(k + 1, s.len() as int),
                Seq::empty(),
            ),
            None => seg_params(cur + s),
        },
    decreases s.len(),
{
    if s.len() == 0 {
        assert(cur + s =~= cur);
    } else if s[0] == ';' {
        assert(cur + s.take(0) =~= cur);
        assert(s.subrange(1, s.len() as int) =~= s.drop_first());
    } else {
        lemma_params_acc_step(s.drop_first(), cur.push(s[0]));
        lemma_find_char(s.drop_first(), ';');
        match find_char(s.drop_first(), ';') {
            Some(k) => {
                assert(cur.push(s[0]) + s.drop_first().take(k) =~= cur + s.take(k + 1));
                assert(s.drop_first().subrange(k + 1, s.drop_first().len() as int) =~= s.subrange(
                    k + 2,
                    s.len() as int,
                ));
            },
            None => {
                assert(cur.push(s[0]) + s.drop_first() =~= cur + s);
            },
        }
    }
}

/// The parameter table of a full parameterized header value: everything
/// after the first semicolon, read as `key=value` segments.
pub open spec fn params_of(s: Seq<char>) -> Seq<(Seq<char>, Seq<char>)> {
    match find_char(s, ';') {
        Some(i) => params_of_acc(s.subrange(i + 1, s.len() as int), Seq::empty()),
        None => Seq::empty(),
    }
}

/// The primary token of a parameterized header value: what stands before the
/// first semicolon, trimmed.
pub open spec fn primary_of(s: Seq<char>) -> Seq<char> {
    match find_char(s, ';') {
        Some(i) => trim(s.take(i)),
        None => trim(s),
    }
}

/// The value a key maps to in an in-order table of pairs; the last
/// occurrence of a key wins.
pub open spec fn lookup(m: Seq<(Seq<char>, Seq<char>)>, k: Seq<char>) -> Option<Seq<char>>
    decreases m.len(),
{
    if m.len() == 0 {
        None
    } else if m.last().0 == k {
        Some(m.last().1)
    } else {
        lookup(m.drop_last(), k)
    }
}

/// An ordered key-to-value table of header parameters. Keys are stored as
/// parsed, in input order; when a key occurs twice, the later entry wins.
#[derive(Debug)]
pub struct ParamMap {
    items: Vec<(String, String)>,
}

impl View for ParamMap {
    type V = Seq<(Seq<char>, Seq<char>)>;

    closed spec fn view(&self) -> Seq<(Seq<char>, Seq<char>)> {
        self.items@.map_values(|p: (String, String)| (p.0@, p.1@))
    }
}

impl ParamMap {
    pub fn new() -> (r: Self)
        ensures
            r@ == Seq::<(Seq<char>, Seq<char>)>::empty(),
    {
        let r = ParamMap { items: Vec::new() };
        proof {
            assert(r@ =~= Seq::<(Seq<char>, Seq<char>)>::empty());
        }
        r
    }

    fn push(&mut self, key: String, value: String)
        ensures
            final(self)@ == old(self)@.push((key@, value@)),
    {
        let ghost before = self@;
        self.items.push((key, value));
        proof {
            assert(self@ =~= before.push((key@, value@)));
        }
    }

    /// The number of entries in the table.
    pub fn len(&self) -> (r: usize)
        ensures
            r == self@.len(),
    {
        self.items.len()
    }

    /// Look `key` up; of several entries with the same key the last wins.
    pub fn get(&self, key: &str) -> (r: Option<&String>)
        ensures
            r is Some <==> lookup(self@, key@) is Some,
            r matches Some(v) ==> Some(v@) == lookup(self@, key@),
    {
        let mut i: usize = self.items.len();
        proof {
            assert(self@.take(i as int) =~= self@);
        }
        while i > 0
            invariant
                i <= self@.len(),
                lookup(self@, key@) == lookup(self@.take(i as int), key@),
            decreases i,
        {
            i = i - 1;
            proof {
                assert(self@.take(i + 1).last() == self@[i as int]);
                assert(self@.take(i + 1).drop_last() =~= self@.take(i as int));
            }
            if str_eq(self.items[i].0.as_str(), key) {
                return Some(&self.items[i].1);
            }
        }
        proof {
            assert(self@.take(0) =~= Seq::<(Seq<char>, Seq<char>)>::empty());
        }
        None
    }
}

/// A parameterized header value taken apart: the primary token and the
/// parameter table.
pub struct ParamContent {
    /// The trimmed primary token before the first semicolon.
    pub value: String,
    /// The `key=value` parameters after it.
    pub params: ParamMap,
}

/// Append to `params` whatever pair the segment `[pos, seg_end)` of `cs`
/// contributes.
fn push_segment_param(params: &mut ParamMap, cs: &Vec<char>, pos: usize, seg_end: usize)
    requires
        pos <= seg_end <= cs@.len(),
    ensures
        final(params)@ == old(params)@ + seg_params(cs@.subrange(pos as int, seg_end as int)),
{
    let ghost seg = cs@.subrange(pos as int, seg_end as int);
    match find_char_in(cs, pos, seg_end, '=') {
        Some(eq) => {
            proof {
                lemma_find_char(seg, '=');
                assert(find_char(seg, '=') == Some(eq - pos));
                assert(seg.take(eq - pos) =~= cs@.subrange(pos as int, eq as int));
                assert(seg.subrange(eq - pos + 1, seg.len() as int) =~= cs@.subrange(
                    eq + 1,
                    seg_end as int,
                ));
            }
            let (klo, khi) = trim_range(cs, pos, eq);
            let key_chars = lower_range(cs, klo, khi);
            let key = chars_to_string(&key_chars);
            let (vlo0, vhi0) = trim_range(cs, eq + 1, seg_end);
            let (vlo, vhi): (usize, usize) = if vhi0 - vlo0 > 1 && cs[vlo0] == '"' && cs[vhi0 - 1]
                == '"' {
                (vlo0 + 1, vhi0 - 1)
            } else {
                (vlo0, vhi0)
            };
            proof {
                assert(cs@.subrange(vlo as int, vhi as int) =~= dequote(
                    cs@.subrange(vlo0 as int, vhi0 as int),
                ));
            }
            let val_chars = subvec(cs, vlo, vhi);
            let val = chars_to_string(&val_chars);
            let ghost before = params@;
            params.push(key, val);
            proof {
                assert(params@ =~= before + seg_params(seg));
            }
        },
        None => {
            proof {
                lemma_find_char(seg, '=');
                assert(find_char(seg, '=') is None);
                assert(params@ + seg_params(seg) =~= params@);
            }
        },
    }
}

/// Parse a parameterized header value such as a Content-Type's
/// `multipart/alternative; boundary=foobar`: the primary token is trimmed,
/// parameter keys are trimmed and lowercased, parameter values trimmed and
/// de-quoted; a segment without `=` contributes nothing, and of duplicate
/// keys the last wins.
pub fn parse_param_content(content: &str) -> (r: ParamContent)
    ensures
        r.value@ == primary_of(content@),
        r.params@ == params_of(content@),
{
    let cs = str_chars(content);
    let n = cs.len();
    let first_semi = find_char_in(&cs, 0, n, ';');
    proof {
        assert(cs@.subrange(0, n as int) =~= cs@);
    }
    let primary_end = match first_semi {
        Some(i) => i,
        None => n,
    };
    let (plo, phi) = trim_range(&cs, 0, primary_end);
    proof {
        assert(cs@.subrange(0, primary_end as int) =~= cs@.take(primary_end as int));
    }
    let primary = subvec(&cs, plo, phi);
    let value = chars_to_string(&primary);
    let mut params = ParamMap::new();
    if let Some(i0) = first_semi {
        let mut pos: usize = i0 + 1;
        let mut more: bool = true;
        proof {
            lemma_find_char(cs@, ';');
            assert(find_char(cs@, ';') == Some(i0 as int));
            assert(params@ + params_of_acc(cs@.subrange(pos as int, n as int), Seq::empty())
                =~= params_of_acc(cs@.subrange(pos as int, n as int), Seq::empty()));
        }
        while more
            invariant
                pos <= n,
                n == cs@.len(),
                params_of(cs@) == params@ + if more {
                    params_of_acc(cs@.subrange(pos as int, n as int), Seq::empty())
                } else {
                    Seq::<(Seq<char>, Seq<char>)>::empty()
                },
            decreases n - pos + if more { 1int } else { 0int },
        {
            let ghost segsrc = cs@.subrange(pos as int, n as int);
            proof {
                lemma_params_acc_step(segsrc, Seq::empty());
            }
            let seg_end = match find_char_in(&cs, pos, n, ';') {
                Some(j) => j,
                None => n,
            };
            let ghost seg = cs@.subrange(pos as int, seg_end as int);
            proof {
                lemma_find_char(segsrc, ';');
                match find_char(segsrc, ';') {
                    Some(k) => {
                        assert(seg_end == pos + k);
                        assert(Seq::<char>::empty() + segsrc.take(k) =~= seg);
                    },
                    None => {
                        assert(seg_end == n);
                        assert(Seq::<char>::empty() + segsrc =~= seg);
                    },
                }
            }
            push_segment_param(&mut params, &cs, pos, seg_end);
            if seg_end < n {
                proof {
                    assert(segsrc.subrange(
                        seg_end - pos + 1,
                        segsrc.len() as int,
                    ) =~= cs@.subrange(seg_end + 1, n as int));
                }
                pos = seg_end + 1;
            } else {
                more = false;
            }
            proof {
                assert(params_of(cs@) == params@ + if more {
                    params_of_acc(cs@.subrange(pos as int, n as int), Seq::empty())
                } else {
                    Seq::<(Seq<char>, Seq<char>)>::empty()
                });
            }
        }
        proof {
            assert(params@ + Seq::<(Seq<char>, Seq<char>)>::empty() =~= params@);
        }
    }
    ParamContent { value, params }
}

/// Whether two character sequences agree letter for letter up to ASCII
/// case.
pub open spec fn case_eq(a: Seq<char>, b: Seq<char>) -> bool {
    a.len() == b.len() && forall|i: int|
        0 <= i < a.len() ==> lower_char(#[trigger] a[i]) == lower_char(b[i])
}

/// Two characters that agree up to case agree exactly on the parser's
/// delimiters, which are not letters.
proof fn lemma_case_eq_char(c: char, d: char)
    requires
        lower_char(c) == lower_char(d),
    ensures
        (c == ';') == (d == ';'),
        (c == '=') == (d == '='),
        (c == '"') == (d == '"'),
        is_ws(c) == is_ws(d),
{
}

/// Case-equal sequences have their delimiters at the same positions.
proof fn lemma_find_char_case(a: Seq<char>, b: Seq<char>, ch: char)
    requires
        case_eq(a, b),
        ch == ';' || ch == '=' || ch == '\n',
    ensures
        find_char(a, ch) == find_char(b, ch),
    decreases a.len(),
{
    if a.len() > 0 {
        lemma_case_eq_char(a[0], b[0]);
        assert((a[0] == ch) == (b[0] == ch));
        if a[0] != ch {
            assert(case_eq(a.drop_first(), b.drop_first())) by {
                assert(forall|i: int|
                    0 <= i < a.drop_first().len() ==> #[trigger] a.drop_first()[i] == a[i + 1]
                        && b.drop_first()[i] == b[i + 1]);
            }
            lemma_find_char_case(a.drop_first(), b.drop_first(), ch);
        }
    }
}

/// Trimming preserves case-equality.
proof fn lemma_trim_start_case(a: Seq<char>, b: Seq<char>)
    requires
        case_eq(a, b),
    ensures
        case_eq(trim_start(a), trim_start(b)),
    decreases a.len(),
{
    if a.len() > 0 {
        lemma_case_eq_char(a[0], b[0]);
        if is_ws(a[0]) {
            assert(case_eq(a.drop_first(), b.drop_first())) by {
                assert(forall|i: int|
                    0 <= i < a.drop_first().len() ==> #[trigger] a.drop_first()[i] == a[i + 1]
                        && b.drop_first()[i] == b[i + 1]);
            }
            lemma_trim_start_case(a.drop_first(), b.drop_first());
        }
    }
}

/// Trimming preserves case-equality.
proof fn lemma_trim_end_case(a: Seq<char>, b: Seq<char>)
    requires
        case_eq(a, b),
    ensures
        case_eq(trim_end(a), trim_end(b)),
    decreases a.len(),
{
    if a.len() > 0 {
        lemma_case_eq_char(a.last(), b.last());
        if is_ws(a.last()) {
            assert(case_eq(a.drop_last(), b.drop_last())) by {
                assert(forall|i: int|
                    0 <= i < a.drop_last().len() ==> #[trigger] a.drop_last()[i] == a[i]
                        && b.drop_last()[i] == b[i]);
            }
            lemma_trim_end_case(a.drop_last(), b.drop_last());
        }
    }
}

/// Trimming preserves case-equality.
proof fn lemma_trim_case(a: Seq<char>, b: Seq<char>)
    requires
        case_eq(a, b),
    ensures
        case_eq(trim(a), trim(b)),
{
    lemma_trim_start_case(a, b);
    lemma_trim_end_case(trim_start(a), trim_start(b));
}

/// Case-equal sequences lowercase to the same sequence.
proof fn lemma_to_lower_case(a: Seq<char>, b: Seq<char>)
    requires
        case_eq(a, b),
    ensures
        to_lower(a) == to_lower(b),
{
    assert(to_lower(a) =~= to_lower(b));
}

/// De-quoting preserves case-equality.
proof fn lemma_dequote_case(a: Seq<char>, b: Seq<char>)
    requires
        case_eq(a, b),
    ensures
        case_eq(dequote(a), dequote(b)),
{
    if a.len() > 1 {
        lemma_case_eq_char(a[0], b[0]);
        lemma_case_eq_char(a.last(), b.last());
        if a[0] == '"' && a.last() == '"' {
            assert(case_eq(a.subrange(1, a.len() - 1), b.subrange(1, b.len() - 1))) by {
                assert(forall|i: int|
                    0 <= i < a.len() - 2 ==> #[trigger] a.subrange(1, a.len() - 1)[i] == a[i + 1]
                        && b.subrange(1, b.len() - 1)[i] == b[i + 1]);
            }
        }
    }
}

/// The pair a segment contributes depends on its text only up to case of
/// its key; the value keeps its case.
proof fn lemma_seg_params_case(a: Seq<char>, b: Seq<char>)
    requires
        case_eq(a, b),
    ensures
        seg_params(a).len() == seg_params(b).len(),
        seg_params(a).len() == 1 ==> seg_params(a)[0].0 == seg_params(b)[0].0 && case_eq(
            seg_params(a)[0].1,
            seg_params(b)[0].1,
        ),
{
    lemma_find_char_case(a, b, '=');
    match find_char(a, '=') {
        Option::Some(i) => {
            lemma_find_char(a, '=');
            assert(case_eq(a.take(i), b.take(i))) by {
                assert(forall|t: int|
                    0 <= t < i ==> #[trigger] a.take(i)[t] == a[t] && b.take(i)[t] == b[t]);
            }
            lemma_trim_case(a.take(i), b.take(i));
            lemma_to_lower_case(trim(a.take(i)), trim(b.take(i)));
            assert(case_eq(
                a.subrange(i + 1, a.len() as int),
                b.subrange(i + 1, b.len() as int),
            )) by {
                assert(forall|t: int|
                    0 <= t < a.len() - i - 1 ==> #[trigger] a.subrange(i + 1, a.len() as int)[t]
                        == a[t + i + 1] && b.subrange(i + 1, b.len() as int)[t] == b[t + i + 1]);
            }
            lemma_trim_case(
                a.subrange(i + 1, a.len() as int),
                b.subrange(i + 1, b.len() as int),
            );
            lemma_dequote_case(
                trim(a.subrange(i + 1, a.len() as int)),
                trim(b.subrange(i + 1, b.len() as int)),
            );
        },
        Option::None => {},
    }
}

/// The parameter tables of case-equal inputs have the same keys at the
/// same positions, with case-equal values.
proof fn lemma_params_acc_case(sa: Seq<char>, sb: Seq<char>, ca: Seq<char>, cb: Seq<char>)
    requires
        case_eq(sa, sb),
        case_eq(ca, cb),
    ensures
        params_of_acc(sa, ca).len() == params_of_acc(sb, cb).len(),
        forall|i: int|
            0 <= i < params_of_acc(sa, ca).len() ==> (#[trigger] params_of_acc(sa, ca)[i]).0
                == params_of_acc(sb, cb)[i].0 && case_eq(
                params_of_acc(sa, ca)[i].1,
                params_of_acc(sb, cb)[i].1,
            ),
    decreases sa.len(),
{
    if sa.len() == 0 {
        lemma_seg_params_case(ca, cb);
    } else {
        lemma_case_eq_char(sa[0], sb[0]);
        assert(case_eq(sa.drop_first(), sb.drop_first())) by {
            assert(forall|i: int|
                0 <= i < sa.drop_first().len() ==> #[trigger] sa.drop_first()[i] == sa[i + 1]
                    && sb.drop_first()[i] == sb[i + 1]);
        }
        if sa[0] == ';' {
            lemma_seg_params_case(ca, cb);
            lemma_params_acc_case(sa.drop_first(), sb.drop_first(), Seq::empty(), Seq::empty());
        } else {
            assert(case_eq(ca.push(sa[0]), cb.push(sb[0]))) by {
                assert(forall|i: int|
                    0 <= i < ca.len() ==> #[trigger] ca.push(sa[0])[i] == ca[i] && cb.push(
                        sb[0],
                    )[i] == cb[i]);
                assert(ca.push(sa[0])[ca.len() as int] == sa[0]);
                assert(cb.push(sb[0])[cb.len() as int] == sb[0]);
            }
            lemma_params_acc_case(sa.drop_first(), sb.drop_first(), ca.push(sa[0]), cb.push(sb[0]));
        }
    }
}

/// Looking a key up in two tables with the same keys and case-equal
/// values gives case-equal answers.
proof fn lemma_lookup_case(
    ma: Seq<(Seq<char>, Seq<char>)>,
    mb: Seq<(Seq<char>, Seq<char>)>,
    k: Seq<char>,
)
    requires
        ma.len() == mb.len(),
        forall|i: int|
            0 <= i < ma.len() ==> (#[trigger] ma[i]).0 == mb[i].0 && case_eq(ma[i].1, mb[i].1),
    ensures
        lookup(ma, k) is Some <==> lookup(mb, k) is Some,
        lookup(ma, k) matches Some(v) ==> case_eq(v, lookup(mb, k)->0),
    decreases ma.len(),
{
    if ma.len() > 0 {
        assert(ma.last() == ma[ma.len() - 1]);
        if ma.last().0 != k {
            assert(forall|i: int|
                0 <= i < ma.drop_last().len() ==> #[trigger] ma.drop_last()[i] == ma[i]
                    && mb.drop_last()[i] == mb[i]);
            lemma_lookup_case(ma.drop_last(), mb.drop_last(), k);
        }
    }
}

/// Parsing a parameterized header value is stable under case permutations
/// of the text: the primary token and the parameter keys normalize to
/// lowercase, so two inputs that agree up to ASCII case yield the same
/// lowercased primary token and the same keys, with values that still
/// agree up to case.
pub proof fn lemma_param_parse_case_insensitive(u: Seq<char>, w: Seq<char>)
    requires
        case_eq(u, w),
    ensures
        to_lower(primary_of(u)) == to_lower(primary_of(w)),
        params_of(u).len() == params_of(w).len(),
        forall|i: int|
            0 <= i < params_of(u).len() ==> (#[trigger] params_of(u)[i]).0 == params_of(w)[i].0
                && case_eq(params_of(u)[i].1, params_of(w)[i].1),
        lookup(params_of(u), "charset"@) is Some <==> lookup(params_of(w), "charset"@) is Some,
        lookup(params_of(u), "charset"@) matches Some(v) ==> case_eq(
            v,
            lookup(params_of(w), "charset"@)->0,
        ),
{
    lemma_find_char_case(u, w, ';');
    match find_char(u, ';') {
        Option::Some(i) => {
            lemma_find_char(u, ';');
            assert(case_eq(u.take(i), w.take(i))) by {
                assert(forall|t: int|
                    0 <= t < i ==> #[trigger] u.take(i)[t] == u[t] && w.take(i)[t] == w[t]);
            }
            lemma_trim_case(u.take(i), w.take(i));
            lemma_to_lower_case(trim(u.take(i)), trim(w.take(i)));
            assert(case_eq(
                u.subrange(i + 1, u.len() as int),
                w.subrange(i + 1, w.len() as int),
            )) by {
                assert(forall|t: int|
                    0 <= t < u.len() - i - 1 ==> #[trigger] u.subrange(i + 1, u.len() as int)[t]
                        == u[t + i + 1] && w.subrange(i + 1, w.len() as int)[t] == w[t + i + 1]);
            }
            lemma_params_acc_case(
                u.subrange(i + 1, u.len() as int),
                w.subrange(i + 1, w.len() as int),
                Seq::empty(),
                Seq::empty(),
            );
        },
        Option::None => {
            lemma_trim_case(u, w);
            lemma_to_lower_case(trim(u), trim(w));
        },
    }
    lemma_lookup_case(params_of(u), params_of(w), "charset"@);
}

} // verus!
