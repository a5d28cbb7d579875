//! RFC 2047 encoded-word decoding inside header values: every well-formed
//! `=?charset?enc?text?=` token is replaced by its decoded content, and every
//! ill-formed token is left byte-for-byte as found.

use vstd::prelude::*;
use crate::params::{is_ws, is_ws_exec, find_char, find_char_in, lemma_find_char, trim_start};
use crate::codec::{qp_decoded, b64_result, strip_ws, decode_quoted_printable, decode_base64};
use crate::charsets::{charset_known, charset_decoded, decode_labelled};
use crate::text::{subvec, chars_to_string, str_chars, latin1, latin1_chars};

verus! {

/// The characters that may stand right before or after an encoded word:
/// whitespace, quotes, parentheses and angle brackets (or nothing at all).
pub open spec fn is_boundary_char(c: char) -> bool {
    is_ws(c) || c == '"' || c == '(' || c == ')' || c == '<' || c == '>'
}

pub(crate) fn is_boundary_exec(c: char) -> (r: bool)
    ensures
        r == is_boundary_char(c),
{
    c == ' ' || c == '\t' || c == '\r' || c == '\n' || c == '"' || c == '(' || c == ')' || c == '<'
        || c == '>'
}

/// Whether every character fits in a byte.
pub open spec fn chars_are_bytes(s: Seq<char>) -> bool {
    forall|i: int| 0 <= i < s.len() ==> (s[i] as u32) < 256
}

/// The characters of `s` read as bytes.
pub open spec fn chars_to_bytes(s: Seq<char>) -> Seq<u8> {
    s.map_values(|c: char| (c as u32) as u8)
}

/// The Q encoding's extra rule: `_` stands for a space.
pub open spec fn q_underscore(s: Seq<char>) -> Seq<char> {
    s.map_values(
        |c: char|
            if c == '_' {
                ' '
            } else {
                c
            },
    )
}

/// Collect the characters `[a, b)` of `w` as bytes, mapping `_` to a space
/// first when `us` is set; a character that does not fit a byte fails.
fn chars_bytes(w: &Vec<char>, a: usize, b: usize, us: bool) -> (r: Option<Vec<u8>>)
    requires
        a <= b <= w@.len(),
    ensures
        ({
            let mapped = if us {
                q_underscore(w@.subrange(a as int, b as int))
            } else {
                w@.subrange(a as int, b as int)
            };
            &&& (r is Some <==> chars_are_bytes(mapped))
            &&& (r matches Some(v) ==> v@ == chars_to_bytes(mapped))
        }),
{
    let ghost mapped = if us {
        q_underscore(w@.subrange(a as int, b as int))
    } else {
        w@.subrange(a as int, b as int)
    };
    let mut out: Vec<u8> = Vec::new();
    let mut k: usize = a;
    while k < b
        invariant
            a <= k <= b <= w@.len(),
            mapped == if us {
                q_underscore(w@.subrange(a as int, b as int))
            } else {
                w@.subrange(a as int, b as int)
            },
            mapped.len() == b - a,
            forall|i: int| 0 <= i < k - a ==> (mapped[i] as u32) < 256,
            out@.len() == k - a,
            forall|i: int| 0 <= i < k - a ==> out@[i] == ((mapped[i] as u32) as u8),
        decreases b - k,
    {
        let c = w[k];
        let c2: char = if us && c == '_' {
            ' '
        } else {
            c
        };
        proof {
            assert(mapped[k - a] == c2);
        }
        if (c2 as u32) >= 256 {
            return None;
        }
        out.push((c2 as u32) as u8);
        k = k + 1;
    }
    proof {
        assert(out@ =~= chars_to_bytes(mapped));
    }
    Some(out)
}

/// What a single encoded word's content (the text between `=?` and `?=`)
/// decodes to: `charset?enc?text`, where `enc` picks Q (quoted-printable
/// with `_` as space) or B (base64), and the charset must be a recognized
/// one — no fallback here; any failure leaves the whole token literal.
pub open spec fn word_decode(w: Seq<char>) -> Option<Seq<char>> {
    match find_char(w, '?') {
        Option::None => None,
        Option::Some(i) => {
            let charset = w.take(i);
            let rest = w.subrange(i + 1, w.len() as int);
            match find_char(rest, '?') {
                Option::None => None,
                Option::Some(j) => {
                    let enc = rest.take(j);
                    let text = rest.subrange(j + 1, rest.len() as int);
                    if enc == seq!['Q'] || enc == seq!['q'] {
                        if chars_are_bytes(q_underscore(text)) && charset_known(charset) {
                            Some(
                                charset_decoded(
                                    charset,
                                    qp_decoded(chars_to_bytes(q_underscore(text))),
                                ),
                            )
                        } else {
                            None
                        }
                    } else if enc == seq!['B'] || enc == seq!['b'] {
                        if chars_are_bytes(text) && b64_result(strip_ws(chars_to_bytes(text)))
                            is Some && charset_known(charset) {
                            Some(
                                charset_decoded(
                                    charset,
                                    b64_result(strip_ws(chars_to_bytes(text)))->0,
                                ),
                            )
                        } else {
                            None
                        }
                    } else {
                        None
                    }
                },
            }
        },
    }
}

/// Decode one encoded word's content, or report that it is ill-formed.
fn word_decode_exec(w: &Vec<char>) -> (r: Option<Vec<char>>)
    ensures
        r is Some <==> word_decode(w@) is Some,
        r matches Some(d) ==> Some(d@) == word_decode(w@),
{
    let n = w.len();
    proof {
        assert(w@.subrange(0, n as int) =~= w@);
    }
    proof {
        lemma_find_char(w@, '?');
    }
    let i = match find_char_in(w, 0, n, '?') {
        Some(i) => i,
        None => {
            return None;
        },
    };
    proof {
        assert(find_char(w@, '?') == Some(i as int));
    }
    let ghost rest = w@.subrange(i + 1, n as int);
    proof {
        lemma_find_char(rest, '?');
        assert(forall|t: int| 0 <= t < rest.len() ==> rest[t] == w@[t + i + 1]);
    }
    let j = match find_char_in(w, i + 1, n, '?') {
        Some(j) => j,
        None => {
            return None;
        },
    };
    proof {
        assert(rest[j - i - 1] == '?');
        assert(find_char(rest, '?') == Some(j - i - 1));
        assert(rest.take(j - i - 1) =~= w@.subrange(i + 1, j as int));
        assert(rest.subrange(j - i - 1 + 1, rest.len() as int) =~= w@.subrange(j + 1, n as int));
    }
    let ghost enc = rest.take(j - i - 1);
    let ghost text = rest.subrange(j - i - 1 + 1, rest.len() as int);
    if j - (i + 1) != 1 {
        proof {
            assert(enc.len() != 1);
            assert(enc != seq!['Q'] && enc != seq!['q'] && enc != seq!['B'] && enc != seq!['b']);
        }
        return None;
    }
    let e = w[i + 1];
    proof {
        assert(enc =~= seq![e]);
    }
    let is_q = e == 'Q' || e == 'q';
    let is_b = e == 'B' || e == 'b';
    if !is_q && !is_b {
        proof {
            assert(seq![e][0] == e);
            assert(enc != seq!['Q'] && enc != seq!['q'] && enc != seq!['B'] && enc != seq!['b']);
        }
        return None;
    }
    let text_bytes = match chars_bytes(w, j + 1, n, is_q) {
        Some(b) => b,
        None => {
            return None;
        },
    };
    let decoded_bytes: Vec<u8> = if is_q {
        decode_quoted_printable(text_bytes.as_slice())
    } else {
        match decode_base64(text_bytes.as_slice()) {
            Some(d) => d,
            None => {
                return None;
            },
        }
    };
    let cs_chars = subvec(w, 0, i);
    proof {
        assert(w@.take(i as int) =~= w@.subrange(0, i as int));
    }
    let cs_str = chars_to_string(&cs_chars);
    match decode_labelled(cs_str.as_str(), decoded_bytes.as_slice()) {
        Some(s) => Some(str_chars(s.as_str())),
        None => None,
    }
}

/// Whether an encoded word that starts at the front of `s` (at its `=?`)
/// can end at position `k` (just after a `?=`): the closing marker is
/// there, the content holds no whitespace, it decodes, and a boundary
/// character (or the end) follows.
pub open spec fn word_ok(s: Seq<char>, k: int) -> bool {
    &&& 4 <= k <= s.len()
    &&& s[k - 2] == '?'
    &&& s[k - 1] == '='
    &&& forall|i: int| 2 <= i < k - 2 ==> !(s[i] == ' ' || s[i] == '\t')
    &&& word_decode(s.subrange(2, k - 2)) is Some
    &&& (k == s.len() || is_boundary_char(s[k]))
}

/// The least acceptable end at or after `k` for the word at the front of
/// `s`, if any.
pub open spec fn word_end_from(s: Seq<char>, k: int) -> Option<int>
    decreases s.len() - k,
{
    if k < 4 || k > s.len() {
        None
    } else if word_ok(s, k) {
        Some(k)
    } else if k == s.len() {
        None
    } else {
        word_end_from(s, k + 1)
    }
}

/// The least acceptable end for the word at the front of `s`, if any.
pub open spec fn first_word_end(s: Seq<char>) -> Option<int> {
    word_end_from(s, 4)
}

/// The first space or tab in `[a, b)` of `w`, if any.
fn has_word_ws(w: &Vec<char>, a: usize, b: usize) -> (r: Option<usize>)
    requires
        a <= b <= w@.len(),
    ensures
        r matches Some(i) ==> a <= i < b && (w@[i as int] == ' ' || w@[i as int] == '\t'),
        r is None ==> forall|i: int| a <= i < b ==> !(w@[i] == ' ' || w@[i] == '\t'),
{
    let mut i: usize = a;
    while i < b
        invariant
            a <= i <= b <= w@.len(),
            forall|j: int| a <= j < i ==> !(w@[j] == ' ' || w@[j] == '\t'),
        decreases b - i,
    {
        if w[i] == ' ' || w[i] == '\t' {
            return Some(i);
        }
        i = i + 1;
    }
    None
}

/// Find the least acceptable end of the encoded word at the front of `sfx`,
/// and its decoded content.
fn scan_word(sfx: &Vec<char>) -> (r: Option<(usize, Vec<char>)>)
    ensures
        r matches Some(p) ==> first_word_end(sfx@) == Some(p.0 as int) && 4 <= p.0 <= sfx@.len()
            && Some(p.1@) == word_decode(sfx@.subrange(2, p.0 - 2)),
        r is None ==> first_word_end(sfx@) is None,
{
    let n = sfx.len();
    if n < 4 {
        return None;
    }
    let mut k: usize = 4;
    loop
        invariant
            4 <= k <= n,
            n == sfx@.len(),
            word_end_from(sfx@, 4) == word_end_from(sfx@, k as int),
        decreases n - k,
    {
        let mut fail: bool = false;
        if sfx[k - 2] == '?' && sfx[k - 1] == '=' {
            match has_word_ws(sfx, 2, k - 2) {
                Some(_) => {
                    fail = true;
                },
                None => {
                    let content = subvec(sfx, 2, k - 2);
                    match word_decode_exec(&content) {
                        Some(d) => {
                            if k == n || is_boundary_exec(sfx[k]) {
                                proof {
                                    assert(word_ok(sfx@, k as int));
                                }
                                return Some((k, d));
                            } else {
                                fail = true;
                            }
                        },
                        None => {
                            fail = true;
                        },
                    }
                },
            }
        } else {
            fail = true;
        }
        proof {
            assert(fail);
            assert(!word_ok(sfx@, k as int));
        }
        if k == n {
            proof {
                assert(word_end_from(sfx@, k as int) is None);
            }
            return None;
        }
        k = k + 1;
    }
}

/// Whether a line begins with a well-formed encoded word.
pub open spec fn starts_word(s: Seq<char>) -> bool {
    s.len() >= 4 && s[0] == '=' && s[1] == '?' && first_word_end(s) is Some
}

/// Rewrite one line: every well-formed encoded word standing between
/// boundary characters is replaced by its decoded content; everything else
/// is copied through unchanged. `bnd` says whether a boundary stands right
/// before `s`.
pub open spec fn rw(s: Seq<char>, bnd: bool) -> Seq<char>
    decreases s.len(),
{
    if s.len() == 0 {
        Seq::empty()
    } else if bnd && s.len() >= 4 && s[0] == '=' && s[1] == '?' && first_word_end(s) is Some {
        let e = first_word_end(s)->0;
        if 4 <= e <= s.len() {
            word_decode(s.subrange(2, e - 2))->0 + rw(s.subrange(e, s.len() as int), false)
        } else {
            Seq::empty()
        }
    } else {
        seq![s[0]] + rw(s.drop_first(), is_boundary_char(s[0]))
    }
}

/// Whether the rewrite of a line ends exactly at the end of a decoded word.
pub open spec fn rw_ends_word(s: Seq<char>, bnd: bool) -> bool
    decreases s.len(),
{
    if s.len() == 0 {
        false
    } else if bnd && s.len() >= 4 && s[0] == '=' && s[1] == '?' && first_word_end(s) is Some {
        let e = first_word_end(s)->0;
        if 4 <= e <= s.len() {
            if e == s.len() {
                true
            } else {
                rw_ends_word(s.subrange(e, s.len() as int), false)
            }
        } else {
            false
        }
    } else {
        rw_ends_word(s.drop_first(), is_boundary_char(s[0]))
    }
}

/// The physical lines of a raw header value, each without its leading
/// whitespace; `cur` is the line read so far.
pub open spec fn lines_acc(s: Seq<char>, cur: Seq<char>) -> Seq<Seq<char>>
    decreases s.len(),
{
    if s.len() == 0 {
        seq![trim_start(cur)]
    } else if s[0] == '\n' {
        seq![trim_start(cur)] + lines_acc(s.drop_first(), Seq::empty())
    } else {
        lines_acc(s.drop_first(), cur.push(s[0]))
    }
}

/// The physical lines of a raw header value, leading whitespace trimmed.
pub open spec fn value_lines(s: Seq<char>) -> Seq<Seq<char>> {
    lines_acc(s, Seq::empty())
}

/// Stepping `lines_acc` a whole line at a time.
pub proof fn lemma_lines_acc_step(s: Seq<char>, cur: Seq<char>)
    ensures
        lines_acc(s, cur) == match find_char(s, '\n') {
            Option::Some(k) => seq![trim_start(cur + s.take(k))] + lines_acc(
                s.subrange(k + 1, s.len() as int),
                Seq::empty(),
            ),
            Option::None => seq![trim_start(cur + s)],
        },
        lines_acc(s, cur).len() >= 1,
    decreases s.len(),
{
    if s.len() == 0 {
        assert(cur + s =~= cur);
    } else if s[0] == '\n' {
        lemma_lines_acc_step(s.drop_first(), Seq::empty());
        assert(cur + s.take(0) =~= cur);
        assert(s.subrange(1, s.len() as int) =~= s.drop_first());
    } else {
        lemma_lines_acc_step(s.drop_first(), cur.push(s[0]));
        lemma_find_char(s.drop_first(), '\n');
        match find_char(s.drop_first(), '\n') {
            Option::Some(k) => {
                assert(cur.push(s[0]) + s.drop_first().take(k) =~= cur + s.take(k + 1));
                assert(s.drop_first().subrange(k + 1, s.drop_first().len() as int) =~= s.subrange(
                    k + 2,
                    s.len() as int,
                ));
            },
            Option::None => {
                assert(cur.push(s[0]) + s.drop_first() =~= cur + s);
            },
        }
    }
}

/// The decoded lines joined back together: a single space stands at each
/// fold, except that the whitespace between two adjacent encoded words is
/// dropped. `prev_word` says whether the previous line ended in a word.
pub open spec fn render_lines(ls: Seq<Seq<char>>, i: int, prev_word: bool) -> Seq<char>
    decreases ls.len() - i,
{
    if i < 0 || i >= ls.len() {
        Seq::empty()
    } else {
        (if prev_word && starts_word(ls[i]) {
            Seq::<char>::empty()
        } else {
            seq![' ']
        }) + rw(ls[i], true) + render_lines(ls, i + 1, rw_ends_word(ls[i], true))
    }
}

/// The decoded form of an unfolded-and-split header value: the lines,
/// each rewritten, joined back together.
pub open spec fn decoded_text(s: Seq<char>) -> Seq<char> {
    let ls = value_lines(s);
    rw(ls[0], true) + render_lines(ls, 1, rw_ends_word(ls[0], true))
}

/// The decoded text of a raw header value: its Latin-1 characters, unfolded
/// (each line break and the following leading whitespace become one space,
/// or nothing between two adjacent encoded words), with every well-formed
/// encoded word replaced by its decoded content.
pub open spec fn decoded_value(bytes: Seq<u8>) -> Seq<char> {
    decoded_text(latin1(bytes))
}

/// Split a raw value into its trimmed physical lines.
#[verifier::rlimit(60)]
fn split_value_lines(chars: &Vec<char>) -> (r: Vec<Vec<char>>)
    ensures
        r@.len() == value_lines(chars@).len(),
        forall|i: int| 0 <= i < r@.len() ==> r@[i]@ == value_lines(chars@)[i],
        r@.len() >= 1,
{
    let n = chars.len();
    let ghost target = value_lines(chars@);
    proof {
        lemma_lines_acc_step(chars@, Seq::empty());
        assert(chars@.subrange(0, n as int) =~= chars@);
    }
    let mut lines: Vec<Vec<char>> = Vec::new();
    let mut pos: usize = 0;
    let mut more: bool = true;
    proof {
        assert(chars@.skip(0) =~= chars@);
        assert(lines@.map_values(|l: Vec<char>| l@) =~= Seq::<Seq<char>>::empty());
    }
    while more
        invariant
            pos <= n,
            n == chars@.len(),
            target == lines@.map_values(|l: Vec<char>| l@) + if more {
                lines_acc(chars@.subrange(pos as int, n as int), Seq::empty())
            } else {
                Seq::<Seq<char>>::empty()
            },
        decreases n - pos + if more {
            1int
        } else {
            0int
        },
    {
        let ghost linesrc = chars@.subrange(pos as int, n as int);
        proof {
            lemma_lines_acc_step(linesrc, Seq::empty());
        }
        let line_end = match find_char_in(chars, pos, n, '\n') {
            Some(j) => j,
            None => n,
        };
        proof {
            lemma_find_char(linesrc, '\n');
            match find_char(linesrc, '\n') {
                Option::Some(k) => {
                    assert(line_end == pos + k);
                    assert(Seq::<char>::empty() + linesrc.take(k) =~= chars@.subrange(
                        pos as int,
                        line_end as int,
                    ));
                },
                Option::None => {
                    assert(line_end == n);
                    assert(Seq::<char>::empty() + linesrc =~= chars@.subrange(
                        pos as int,
                        line_end as int,
                    ));
                },
            }
        }
        // trim the leading whitespace off this line
        let mut lo: usize = pos;
        while lo < line_end && is_ws_exec(chars[lo])
            invariant
                pos <= lo <= line_end <= n,
                trim_start(chars@.subrange(pos as int, line_end as int)) == trim_start(
                    chars@.subrange(lo as int, line_end as int),
                ),
            decreases line_end - lo,
        {
            proof {
                assert(chars@.subrange(lo as int, line_end as int).drop_first() =~= chars@.subrange(
                    lo + 1,
                    line_end as int,
                ));
            }
            lo = lo + 1;
        }
        proof {
            assert(trim_start(chars@.subrange(pos as int, line_end as int)) == chars@.subrange(
                lo as int,
                line_end as int,
            ));
        }
        let linev = subvec(chars, lo, line_end);
        let ghost before = lines@.map_values(|l: Vec<char>| l@);
        lines.push(linev);
        proof {
            assert(lines@.map_values(|l: Vec<char>| l@) =~= before.push(linev@));
        }
        if line_end < n {
            proof {
                assert(linesrc.subrange(line_end - pos + 1, linesrc.len() as int) =~= chars@.subrange(
                    line_end + 1,
                    n as int,
                ));
                assert(before.push(linev@) + lines_acc(chars@.subrange(line_end + 1, n as int), Seq::empty())
                    =~= before + (seq![linev@] + lines_acc(chars@.subrange(line_end + 1, n as int), Seq::empty())));
            }
            pos = line_end + 1;
        } else {
            proof {
                assert(before.push(linev@) + Seq::<Seq<char>>::empty() =~= before + seq![linev@]);
            }
            more = false;
        }
    }
    proof {
        let final_views = lines@.map_values(|l: Vec<char>| l@);
        assert(final_views + Seq::<Seq<char>>::empty() =~= final_views);
        assert(forall|i: int| 0 <= i < lines@.len() ==> lines@[i]@ == final_views[i]);
    }
    lines
}

/// Whether `line` begins with a well-formed encoded word.
fn starts_word_exec(line: &Vec<char>) -> (r: bool)
    ensures
        r == starts_word(line@),
{
    if line.len() >= 4 && line[0] == '=' && line[1] == '?' {
        scan_word(line).is_some()
    } else {
        false
    }
}

/// Rewrite one line, and report whether its rewrite ended exactly at the
/// end of a decoded word.
fn rewrite_line(line: &Vec<char>) -> (r: (Vec<char>, bool))
    ensures
        r.0@ == rw(line@, true),
        r.1 == rw_ends_word(line@, true),
{
    let n = line.len();
    let mut out: Vec<char> = Vec::new();
    let mut pos: usize = 0;
    let mut bnd: bool = true;
    proof {
        assert(line@.skip(0) =~= line@);
        assert(out@ + rw(line@, true) =~= rw(line@, true));
    }
    while pos < n
        invariant
            pos <= n,
            n == line@.len(),
            rw(line@, true) == out@ + rw(line@.skip(pos as int), bnd),
            rw_ends_word(line@, true) == rw_ends_word(line@.skip(pos as int), bnd),
        decreases n - pos,
    {
        let ghost sfxg = line@.skip(pos as int);
        let c = line[pos];
        let mut literal: bool = true;
        if bnd && n - pos >= 4 && c == '=' && line[pos + 1] == '?' {
            let sfx = subvec(line, pos, n);
            proof {
                assert(sfx@ =~= sfxg);
            }
            match scan_word(&sfx) {
                Some((e_rel, d)) => {
                    literal = false;
                    proof {
                        assert(sfxg.subrange(e_rel as int, sfxg.len() as int) =~= line@.skip(
                            pos + e_rel,
                        ));
                        assert(out@ + (word_decode(sfxg.subrange(2, e_rel - 2))->0 + rw(
                            line@.skip(pos + e_rel),
                            false,
                        )) =~= (out@ + d@) + rw(line@.skip(pos + e_rel), false));
                    }
                    let mut dv = d;
                    out.append(&mut dv);
                    if pos + e_rel == n {
                        proof {
                            assert(line@.skip(n as int) =~= Seq::<char>::empty());
                            assert(out@ + rw(line@.skip(n as int), false) =~= out@);
                        }
                        return (out, true);
                    }
                    pos = pos + e_rel;
                    bnd = false;
                },
                None => {
                },
            }
        }
        if literal {
            proof {
                assert(sfxg[0] == c);
                assert(sfxg.drop_first() =~= line@.skip(pos + 1));
                assert(out@ + (seq![c] + rw(line@.skip(pos + 1), is_boundary_char(c))) =~= (
                out@.push(c)) + rw(line@.skip(pos + 1), is_boundary_char(c)));
            }
            out.push(c);
            bnd = is_boundary_exec(c);
            pos = pos + 1;
        }
    }
    proof {
        assert(line@.skip(n as int) =~= Seq::<char>::empty());
        assert(out@ + rw(line@.skip(n as int), bnd) =~= out@);
    }
    (out, false)
}

/// Whether `s` holds a `?=` closing marker anywhere.
pub open spec fn has_close_marker(s: Seq<char>) -> bool {
    exists|i: int| 0 <= i < s.len() - 1 && #[trigger] s[i] == '?' && s[i + 1] == '='
}

/// Without a closing `?=`, no position can end an encoded word.
proof fn lemma_no_close_no_word_end(s: Seq<char>, k: int)
    requires
        !has_close_marker(s),
        k >= 4,
    ensures
        word_end_from(s, k) is None,
    decreases s.len() - k,
{
    if k <= s.len() {
        assert(!(s[k - 2] == '?' && s[k - 1] == '='));
        assert(!word_ok(s, k));
        if k < s.len() {
            lemma_no_close_no_word_end(s, k + 1);
        }
    }
}

/// A malformed encoded word is left byte-for-byte as found: a line whose
/// `=?` markers are never closed by `?=` passes through the decoder
/// unchanged.
pub proof fn lemma_unterminated_word_unchanged(s: Seq<char>, bnd: bool)
    ensures
        !has_close_marker(s) ==> rw(s, bnd) == s && !rw_ends_word(s, bnd),
    decreases s.len(),
{
    if !has_close_marker(s) && s.len() > 0 {
        lemma_no_close_no_word_end(s, 4);
        assert(first_word_end(s) is None);
        let t = s.drop_first();
        assert(forall|i: int| 0 <= i < t.len() ==> t[i] == s[i + 1]);
        assert(!has_close_marker(t)) by {
            if has_close_marker(t) {
                let i = choose|i: int|
                    0 <= i < t.len() - 1 && #[trigger] t[i] == '?' && t[i + 1] == '=';
                assert(s[i + 1] == '?' && s[i + 2] == '=');
            }
        }
        lemma_unterminated_word_unchanged(t, is_boundary_char(s[0]));
        assert(seq![s[0]] + t =~= s);
    }
}

/// `trim_start` jumps over a run of whitespace in one step.
proof fn lemma_trim_start_ws_prefix(ws: Seq<char>, b: Seq<char>)
    requires
        forall|i: int| 0 <= i < ws.len() ==> is_ws(ws[i]),
    ensures
        trim_start(ws + b) == trim_start(b),
    decreases ws.len(),
{
    if ws.len() == 0 {
        assert(ws + b =~= b);
    } else {
        assert((ws + b)[0] == ws[0]);
        assert((ws + b).drop_first() =~= ws.drop_first() + b);
        lemma_trim_start_ws_prefix(ws.drop_first(), b);
    }
}

/// Folding, then unfolding, restores a header value up to whitespace
/// normalization at the fold point alone: inserting a line break plus any
/// run of leading whitespace between `a` and `b` decodes back to `a`, one
/// space, `b` — provided neither side holds an encoded word (a decoded
/// word would swallow the whitespace next to it, and decoding would
/// rewrite it).
pub proof fn lemma_unfold_fold(a: Seq<char>, ws: Seq<char>, b: Seq<char>)
    requires
        forall|i: int| 0 <= i < a.len() ==> a[i] != '\n',
        forall|i: int| 0 <= i < ws.len() ==> is_ws(ws[i]) && ws[i] != '\n',
        forall|i: int| 0 <= i < b.len() ==> b[i] != '\n',
        trim_start(a) == a,
        trim_start(b) == b,
        !has_close_marker(a),
        !has_close_marker(b),
    ensures
        decoded_text(a + seq!['\n'] + ws + b) == a + seq![' '] + b,
{
    let folded = a + seq!['\n'] + ws + b;
    lemma_lines_acc_step(folded, Seq::empty());
    lemma_find_char(folded, '\n');
    assert(folded[a.len() as int] == '\n');
    assert(forall|i: int| 0 <= i < a.len() ==> folded[i] == a[i] && folded[i] != '\n');
    let k = find_char(folded, '\n')->0;
    assert(k == a.len());
    assert(Seq::<char>::empty() + folded.take(k) =~= a);
    assert(folded.subrange(k + 1, folded.len() as int) =~= ws + b);
    lemma_lines_acc_step(ws + b, Seq::empty());
    lemma_find_char(ws + b, '\n');
    assert(forall|i: int| 0 <= i < (ws + b).len() ==> (ws + b)[i] != '\n');
    assert(find_char(ws + b, '\n') is None);
    assert(Seq::<char>::empty() + (ws + b) =~= ws + b);
    lemma_trim_start_ws_prefix(ws, b);
    let ls = value_lines(folded);
    assert(ls =~= seq![a, b]);
    lemma_unterminated_word_unchanged(a, true);
    lemma_unterminated_word_unchanged(b, true);
    assert(render_lines(ls, 2, rw_ends_word(b, true)) =~= Seq::<char>::empty());
    assert(decoded_text(folded) =~= a + seq![' '] + b);
}

/// A value that needs no unfolding and holds no encoded word decodes to
/// itself: the decoder never invents or drops a byte of plain text.
pub proof fn lemma_plain_value_unchanged(s: Seq<char>)
    requires
        forall|i: int| 0 <= i < s.len() ==> s[i] != '\n',
        trim_start(s) == s,
        !has_close_marker(s),
    ensures
        decoded_text(s) == s,
{
    lemma_lines_acc_step(s, Seq::empty());
    lemma_find_char(s, '\n');
    assert(find_char(s, '\n') is None);
    assert(Seq::<char>::empty() + s =~= s);
    let ls = value_lines(s);
    assert(ls =~= seq![s]);
    lemma_unterminated_word_unchanged(s, true);
    assert(render_lines(ls, 1, rw_ends_word(s, true)) =~= Seq::<char>::empty());
    assert(decoded_text(s) =~= s);
}

impl crate::header::MailHeader {
    /// The decoded value: unfolded (each line break plus leading whitespace
    /// becomes one space, dropped between two adjacent encoded words), with
    /// every well-formed encoded word decoded and every ill-formed one left
    /// byte-for-byte as found. Never fails.
    pub fn get_value(&self) -> (r: Result<String, crate::error::MailParseError>)
        ensures
            r is Ok,
            r matches Ok(s) ==> s@ == decoded_value(self.value@),
    {
        Ok(decode_header_value(self.value.as_slice()))
    }
}

/// Decode a raw header value completely: Latin-1 characters, unfolding,
/// and encoded-word replacement.
pub fn decode_header_value(value: &[u8]) -> (r: String)
    ensures
        r@ == decoded_value(value@),
{
    let chars = latin1_chars(value);
    let lines = split_value_lines(&chars);
    let ghost ls = value_lines(chars@);
    let first = rewrite_line(&lines[0]);
    let mut out = first.0;
    let mut prev_end = first.1;
    let mut i: usize = 1;
    proof {
        assert(decoded_value(value@) == out@ + render_lines(ls, 1, prev_end));
    }
    while i < lines.len()
        invariant
            1 <= i <= lines@.len(),
            lines@.len() == ls.len(),
            forall|t: int| 0 <= t < ls.len() ==> lines@[t]@ == ls[t],
            decoded_value(value@) == out@ + render_lines(ls, i as int, prev_end),
        decreases lines@.len() - i,
    {
        let piece = rewrite_line(&lines[i]);
        let sw = starts_word_exec(&lines[i]);
        let ghost before = out@;
        let ghost sep: Seq<char> = if prev_end && sw {
            Seq::empty()
        } else {
            seq![' ']
        };
        if !(prev_end && sw) {
            out.push(' ');
        }
        proof {
            assert(out@ =~= before + sep);
        }
        let mut pv = piece.0;
        out.append(&mut pv);
        proof {
            assert(out@ =~= before + (sep + rw(ls[i as int], true)));
            assert(before + (sep + rw(ls[i as int], true)) + render_lines(
                ls,
                i + 1,
                rw_ends_word(ls[i as int], true),
            ) =~= before + ((sep + rw(ls[i as int], true)) + render_lines(
                ls,
                i + 1,
                rw_ends_word(ls[i as int], true),
            )));
        }
        prev_end = piece.1;
        i = i + 1;
    }
    proof {
        assert(render_lines(ls, i as int, prev_end) =~= Seq::<char>::empty());
        assert(out@ + Seq::<char>::empty() =~= out@);
    }
    chars_to_string(&out)
}

} // verus!
