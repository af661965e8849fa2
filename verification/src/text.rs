//! Character classes and small string utilities shared by the parser and the
//! normalizers. Everything here works on the `Seq<char>` view of strings.
use vstd::prelude::*;
use vstd::std_specs::iter::IteratorSpec;

verus! {

/// Unicode `White_Space` (the property behind `char::is_whitespace` and the
/// regex class `\s`).
pub open spec fn is_ws(c: char) -> bool {
    ||| ('\u{9}' <= c && c <= '\u{d}')
    ||| c == ' '
    ||| c == '\u{85}'
    ||| c == '\u{a0}'
    ||| c == '\u{1680}'
    ||| ('\u{2000}' <= c && c <= '\u{200a}')
    ||| c == '\u{2028}'
    ||| c == '\u{2029}'
    ||| c == '\u{202f}'
    ||| c == '\u{205f}'
    ||| c == '\u{3000}'
}

pub fn is_ws_char(c: char) -> (r: bool)
    ensures
        r == is_ws(c),
{
    ('\u{9}' <= c && c <= '\u{d}') || c == ' ' || c == '\u{85}' || c == '\u{a0}' || c
        == '\u{1680}' || ('\u{2000}' <= c && c <= '\u{200a}') || c == '\u{2028}' || c == '\u{2029}'
        || c == '\u{202f}' || c == '\u{205f}' || c == '\u{3000}'
}

pub open spec fn is_digit(c: char) -> bool {
    '0' <= c && c <= '9'
}

pub fn is_digit_char(c: char) -> (r: bool)
    ensures
        r == is_digit(c),
{
    '0' <= c && c <= '9'
}

/// Whether the regex class `\w` matches `c` (Unicode word characters:
/// alphabetic, marks, decimal digits, connector punctuation, joiners).
pub uninterp spec fn regex_word(c: char) -> bool;

/// Whether the regex class `\p{Lu}` (Unicode uppercase letters) matches `c`.
pub uninterp spec fn regex_upper(c: char) -> bool;

/// Matches `c` against `\w` with the `regex` crate (`Regex::is_match`). The
/// contract only ties the result to the character.
#[verifier::external_body]
fn regex_word_match(c: char) -> (r: bool)
    ensures
        r == regex_word(c),
{
    regex::Regex::new(r"\A\w\z").unwrap().is_match(&c.to_string())
}

/// Matches `c` against `\p{Lu}` with the `regex` crate (`Regex::is_match`).
/// The contract only ties the result to the character.
#[verifier::external_body]
fn regex_upper_match(c: char) -> (r: bool)
    ensures
        r == regex_upper(c),
{
    regex::Regex::new(r"\A\p{Lu}\z").unwrap().is_match(&c.to_string())
}

/// A word character (`\w`): on ASCII `[0-9A-Za-z_]`, beyond it the Unicode
/// class.
pub open spec fn is_word(c: char) -> bool {
    if (c as u32) < 128 {
        is_digit(c) || ('A' <= c && c <= 'Z') || ('a' <= c && c <= 'z') || c == '_'
    } else {
        regex_word(c)
    }
}

pub fn is_word_char(c: char) -> (r: bool)
    ensures
        r == is_word(c),
{
    if (c as u32) < 128 {
        is_digit_char(c) || ('A' <= c && c <= 'Z') || ('a' <= c && c <= 'z') || c == '_'
    } else {
        regex_word_match(c)
    }
}

/// An uppercase letter (`[A-Z\p{Lu}]`): on ASCII `A`-`Z`, beyond it the
/// Unicode class.
pub open spec fn is_upper_letter(c: char) -> bool {
    if (c as u32) < 128 {
        'A' <= c && c <= 'Z'
    } else {
        regex_upper(c)
    }
}

pub fn is_upper_letter_char(c: char) -> (r: bool)
    ensures
        r == is_upper_letter(c),
{
    if (c as u32) < 128 {
        'A' <= c && c <= 'Z'
    } else {
        regex_upper_match(c)
    }
}

/// Appends `c` to `s` (`String::push`).
#[verifier::external_body]
pub(crate) fn push_char(s: &mut String, c: char)
    ensures
        final(s)@ == old(s)@.push(c),
{
    s.push(c);
}

/// Appends the characters of `t` to `s`.
pub fn push_str(s: &mut String, t: &str)
    ensures
        final(s)@ == old(s)@ + t@,
{
    s.append(t);
}

/// Appends `n` copies of `c`.
pub fn push_repeat(s: &mut String, c: char, n: usize)
    ensures
        final(s)@ == old(s)@ + Seq::new(n as nat, |_i: int| c),
{
    let ghost s0 = s@;
    let mut k: usize = 0;
    while k < n
        invariant
            k <= n,
            s@ == s0 + Seq::new(k as nat, |_i: int| c),
        decreases n - k,
    {
        push_char(s, c);
        k = k + 1;
        assert(s@ =~= s0 + Seq::new(k as nat, |_i: int| c));
    }
}

/// Appends the characters of `v`.
pub fn push_chars(s: &mut String, v: &[char])
    ensures
        final(s)@ == old(s)@ + v@,
{
    let ghost s0 = s@;
    let mut k: usize = 0;
    while k < v.len()
        invariant
            k <= v@.len(),
            s@ == s0 + v@.subrange(0, k as int),
        decreases v@.len() - k,
    {
        push_char(s, v[k]);
        k = k + 1;
        assert(s@ =~= s0 + v@.subrange(0, k as int));
    }
    assert(v@.subrange(0, v@.len() as int) =~= v@);
}

/// A new `String` holding the characters of `v`.
pub fn string_of(v: &[char]) -> (r: String)
    ensures
        r@ == v@,
{
    let mut r = String::new();
    push_chars(&mut r, v);
    assert(r@ =~= v@);
    r
}

/// The characters of `s`, in order.
pub fn chars_of(s: &str) -> (r: Vec<char>)
    ensures
        r@ == s@,
{
    let mut r: Vec<char> = Vec::new();
    let n = s.unicode_len();
    let mut it = s.chars();
    let mut k: usize = 0;
    broadcast use vstd::string::group_string_axioms;
    assert(it.remaining() == s@);
    while k < n
        invariant
            k <= n,
            n == s@.len(),
            it.remaining() == s@.subrange(k as int, n as int),
            r@ == s@.subrange(0, k as int),
            it.obeys_prophetic_iter_laws(),
        decreases n - k,
    {
        let ghost before = it.remaining();
        let c = it.next();
        assert(before.len() > 0);
        match c {
            Some(c) => {
                r.push(c);
            },
            None => {
                assert(false);
            },
        }
        k = k + 1;
        assert(r@ =~= s@.subrange(0, k as int));
        assert(it.remaining() =~= s@.subrange(k as int, n as int));
    }
    assert(r@ =~= s@);
    r
}

/// Appends the characters `v[lo..hi]`.
pub fn push_range(s: &mut String, v: &[char], lo: usize, hi: usize)
    requires
        lo <= hi <= v@.len(),
    ensures
        final(s)@ == old(s)@ + v@.subrange(lo as int, hi as int),
{
    let ghost s0 = s@;
    let mut k: usize = lo;
    while k < hi
        invariant
            lo <= k <= hi,
            hi <= v@.len(),
            s@ == s0 + v@.subrange(lo as int, k as int),
        decreases hi - k,
    {
        push_char(s, v[k]);
        k = k + 1;
        assert(s@ =~= s0 + v@.subrange(lo as int, k as int));
    }
}

/// `s` with every `c` taken out.
pub open spec fn remove_char(s: Seq<char>, c: char) -> Seq<char>
    decreases s.len(),
{
    if s.len() == 0 {
        s
    } else if s.last() == c {
        remove_char(s.drop_last(), c)
    } else {
        remove_char(s.drop_last(), c).push(s.last())
    }
}

/// The characters of `v` other than `c`, in order.
pub fn without_char(v: &[char], c: char) -> (r: Vec<char>)
    ensures
        r@ == remove_char(v@, c),
{
    let mut r: Vec<char> = Vec::new();
    let mut k: usize = 0;
    while k < v.len()
        invariant
            k <= v@.len(),
            r@ == remove_char(v@.take(k as int), c),
        decreases v@.len() - k,
    {
        assert(v@.take(k + 1).drop_last() =~= v@.take(k as int));
        if v[k] != c {
            r.push(v[k]);
        }
        k = k + 1;
    }
    assert(v@.take(v@.len() as int) =~= v@);
    r
}

/// The first position of `c` in `s`, or the length of `s`.
pub open spec fn index_or_len(s: Seq<char>, c: char) -> int
    decreases s.len(),
{
    if s.len() == 0 {
        0
    } else if s[0] == c {
        0
    } else {
        1 + index_or_len(s.drop_first(), c)
    }
}

pub proof fn lemma_index_or_len(s: Seq<char>, c: char)
    ensures
        0 <= index_or_len(s, c) <= s.len(),
        forall|k: int| 0 <= k < index_or_len(s, c) ==> s[k] != c,
        index_or_len(s, c) < s.len() ==> s[index_or_len(s, c)] == c,
    decreases s.len(),
{
    if s.len() > 0 && s[0] != c {
        lemma_index_or_len(s.drop_first(), c);
        assert forall|k: int| 0 <= k < index_or_len(s, c) implies s[k] != c by {
            if k > 0 {
                assert(s[k] == s.drop_first()[k - 1]);
            }
        }
    }
}

pub fn index_or_len_exec(v: &[char], c: char) -> (r: usize)
    ensures
        r == index_or_len(v@, c),
        r <= v@.len(),
{
    proof {
        lemma_index_or_len(v@, c);
    }
    let mut k: usize = 0;
    while k < v.len() && v[k] != c
        invariant
            k <= v@.len(),
            forall|j: int| 0 <= j < k ==> v@[j] != c,
        decreases v@.len() - k,
    {
        k = k + 1;
    }
    proof {
        let i = index_or_len(v@, c);
        if (k as int) < i {
            assert(v@[k as int] != c);
        }
        if i < k {
            assert(v@[i] != c);
        }
    }
    k
}

/// All characters are ASCII.
pub open spec fn all_ascii(s: Seq<char>) -> bool {
    forall|k: int| 0 <= k < s.len() ==> (s[k] as u32) < 128
}

/// A new vector holding `v[lo..hi]`.
pub fn copy_range(v: &[char], lo: usize, hi: usize) -> (r: Vec<char>)
    requires
        lo <= hi <= v@.len(),
    ensures
        r@ == v@.subrange(lo as int, hi as int),
{
    let mut r: Vec<char> = Vec::new();
    let mut k: usize = lo;
    while k < hi
        invariant
            lo <= k <= hi,
            hi <= v@.len(),
            r@ == v@.subrange(lo as int, k as int),
        decreases hi - k,
    {
        r.push(v[k]);
        k = k + 1;
        assert(r@ =~= v@.subrange(lo as int, k as int));
    }
    r
}

pub proof fn lemma_remove_char_ascii(s: Seq<char>, c: char)
    requires
        all_ascii(s),
    ensures
        all_ascii(remove_char(s, c)),
        remove_char(s, c).len() <= s.len(),
    decreases s.len(),
{
    if s.len() > 0 {
        lemma_remove_char_ascii(s.drop_last(), c);
        let r = remove_char(s.drop_last(), c);
        if s.last() != c {
            assert forall|k: int| 0 <= k < r.push(s.last()).len() implies (r.push(
                s.last(),
            )[k] as u32) < 128 by {
                if k < r.len() {
                    assert(r.push(s.last())[k] == r[k]);
                } else {
                    assert(s.last() == s[s.len() - 1]);
                }
            }
        }
    }
}

/// Appends the characters of `t` to `out`.
pub fn append_str(out: &mut Vec<char>, t: &str)
    ensures
        final(out)@ == old(out)@ + t@,
{
    let v = chars_of(t);
    append_range(out, &v, 0, v.len());
    assert(v@.subrange(0, v@.len() as int) =~= t@);
}

/// Appends `v[lo..hi]` to `out`.
pub fn append_range(out: &mut Vec<char>, v: &[char], lo: usize, hi: usize)
    requires
        lo <= hi <= v@.len(),
    ensures
        final(out)@ == old(out)@ + v@.subrange(lo as int, hi as int),
{
    let ghost o0 = out@;
    let mut k: usize = lo;
    while k < hi
        invariant
            lo <= k <= hi,
            hi <= v@.len(),
            out@ == o0 + v@.subrange(lo as int, k as int),
        decreases hi - k,
    {
        out.push(v[k]);
        k = k + 1;
        assert(out@ =~= o0 + v@.subrange(lo as int, k as int));
    }
}

/// The lines of `s[i..]` as `str::lines` gives them: split at line feeds, a
/// carriage return before a line feed dropped, and no empty line after a
/// final line feed.
pub open spec fn line_pieces(s: Seq<char>, i: int) -> Seq<Seq<char>>
    decreases s.len() - i,
{
    if i < 0 || i >= s.len() {
        seq![]
    } else {
        let e = crate::lex::line_end(s, i);
        proof {
            crate::lex::lemma_line_end(s, i);
        }
        let l = if e < s.len() && e > i && s[e - 1] == '\r' {
            s.subrange(i, e - 1)
        } else {
            s.subrange(i, e)
        };
        if e >= s.len() {
            seq![l]
        } else {
            seq![l] + line_pieces(s, e + 1)
        }
    }
}

pub open spec fn spec_lines(s: Seq<char>) -> Seq<Seq<char>> {
    line_pieces(s, 0)
}

pub open spec fn views(v: Seq<String>) -> Seq<Seq<char>> {
    v.map_values(|l: String| l@)
}

/// Each line is no longer than the text it comes from.
pub proof fn lemma_line_pieces_len(s: Seq<char>, i: int)
    requires
        0 <= i,
    ensures
        forall|k: int|
            0 <= k < line_pieces(s, i).len() ==> #[trigger] line_pieces(s, i)[k].len() <= s.len(),
    decreases s.len() - i,
{
    if 0 <= i < s.len() {
        crate::lex::lemma_line_end(s, i);
        let e = crate::lex::line_end(s, i);
        if e < s.len() {
            lemma_line_pieces_len(s, e + 1);
        }
        let l = if e < s.len() && e > i && s[e - 1] == '\r' {
            s.subrange(i, e - 1)
        } else {
            s.subrange(i, e)
        };
        assert forall|k: int| 0 <= k < line_pieces(s, i).len() implies #[trigger] line_pieces(
            s,
            i,
        )[k].len() <= s.len() by {
            if k > 0 && e < s.len() {
                assert(line_pieces(s, i)[k] == line_pieces(s, e + 1)[k - 1]);
            }
        }
    }
}

/// The lines of `s` (see `spec_lines`).
pub fn split_lines(s: &str) -> (r: Vec<String>)
    ensures
        views(r@) == spec_lines(s@),
{
    let v = chars_of(s);
    let n = v.len();
    let mut r: Vec<String> = Vec::new();
    let mut i: usize = 0;
    while i < n
        invariant
            i <= n,
            n == v@.len(),
            v@ == s@,
            views(r@) + line_pieces(v@, i as int) == line_pieces(v@, 0),
        decreases n - i,
    {
        let e = crate::lex::line_end_exec(&v, i);
        let hi = if e < n && e > i && v[e - 1] == '\r' {
            e - 1
        } else {
            e
        };
        let mut l = String::new();
        push_range(&mut l, &v, i, hi);
        let ghost before = views(r@);
        r.push(l);
        assert(views(r@) =~= before.push(l@));
        if e < n {
            assert(line_pieces(v@, i as int) =~= seq![l@] + line_pieces(v@, e + 1));
            assert(views(r@) + line_pieces(v@, e + 1) =~= before + line_pieces(v@, i as int));
            i = e + 1;
        } else {
            assert(line_pieces(v@, i as int) =~= seq![l@]);
            assert(views(r@) + line_pieces(v@, n as int) =~= before + line_pieces(v@, i as int));
            i = n;
        }
    }
    assert(views(r@) =~= line_pieces(v@, 0));
    r
}

/// The lines joined with line feeds between them.
pub open spec fn join_lines(ls: Seq<Seq<char>>) -> Seq<char>
    decreases ls.len(),
{
    if ls.len() == 0 {
        seq![]
    } else if ls.len() == 1 {
        ls[0]
    } else {
        join_lines(ls.drop_last()) + seq!['\n'] + ls.last()
    }
}

/// A line that can be joined and read back: no line feed in it, and no
/// carriage return at its end.
pub open spec fn plain_line(l: Seq<char>) -> bool {
    &&& forall|k: int| 0 <= k < l.len() ==> #[trigger] l[k] != '\n'
    &&& (l.len() > 0 ==> l.last() != '\r')
}

proof fn lemma_line_end_stops(s: Seq<char>, i: int, e: int)
    requires
        0 <= i <= e <= s.len(),
        forall|k: int| i <= k < e ==> #[trigger] s[k] != '\n',
        e == s.len() || s[e] == '\n',
    ensures
        crate::lex::line_end(s, i) == e,
    decreases e - i,
{
    if i < e {
        lemma_line_end_stops(s, i + 1, e);
    }
}

/// Joining splits off the first line.
pub proof fn lemma_join_front(ls: Seq<Seq<char>>)
    requires
        ls.len() >= 2,
    ensures
        join_lines(ls) == ls[0] + seq!['\n'] + join_lines(ls.drop_first()),
    decreases ls.len(),
{
    let d = ls.drop_first();
    if ls.len() > 2 {
        lemma_join_front(ls.drop_last());
        assert(ls.drop_last().drop_first() =~= d.drop_last());
        assert(d.last() == ls.last());
        assert(join_lines(d) == join_lines(d.drop_last()) + seq!['\n'] + d.last());
        assert(join_lines(ls) =~= ls[0] + seq!['\n'] + join_lines(d));
    } else {
        assert(ls.drop_last() =~= seq![ls[0]]);
        assert(d =~= seq![ls[1]]);
        assert(join_lines(ls.drop_last()) == ls[0]);
        assert(join_lines(d) == ls[1]);
        assert(join_lines(ls) =~= ls[0] + seq!['\n'] + join_lines(d));
    }
}

proof fn lemma_pieces_of_join(s: Seq<char>, i: int, ls: Seq<Seq<char>>, tail: Seq<char>)
    requires
        ls.len() >= 1,
        0 <= i <= s.len(),
        s.subrange(i, s.len() as int) == join_lines(ls) + tail,
        tail == Seq::<char>::empty() || tail == seq!['\n'],
        forall|k: int| 0 <= k < ls.len() ==> plain_line(#[trigger] ls[k]),
        ls.last().len() > 0,
    ensures
        line_pieces(s, i) == ls,
    decreases ls.len(),
{
    let l0 = ls[0];
    let e = i + l0.len();
    let t = s.subrange(i, s.len() as int);
    if ls.len() == 1 {
        assert(join_lines(ls) == l0);
        assert(t =~= l0 + tail);
    } else {
        lemma_join_front(ls);
        assert(t =~= l0 + (seq!['\n'] + join_lines(ls.drop_first()) + tail));
    }
    assert(e <= s.len());
    assert forall|k: int| i <= k < e implies #[trigger] s[k] != '\n' by {
        assert(s[k] == s.subrange(i, s.len() as int)[k - i]);
        assert(s.subrange(i, s.len() as int)[k - i] == l0[k - i]);
    }
    if e < s.len() {
        assert(s[e] == s.subrange(i, s.len() as int)[e - i]);
    }
    assert(e == s.len() || s[e] == '\n');
    lemma_line_end_stops(s, i, e);
    assert(i < s.len());
    assert(s.subrange(i, e) =~= l0) by {
        assert forall|k: int| 0 <= k < l0.len() implies s.subrange(i, e)[k] == l0[k] by {
            assert(s[i + k] == s.subrange(i, s.len() as int)[k]);
        }
    }
    if e < s.len() && e > i {
        assert(s[e - 1] == t[e - 1 - i]);
        assert(s[e - 1] == l0.last());
    }
    if ls.len() == 1 {
        if e < s.len() {
            assert(s.len() == e + 1);
            assert(line_pieces(s, e + 1) == Seq::<Seq<char>>::empty());
        }
        assert(line_pieces(s, i) =~= ls);
    } else {
        let rest = ls.drop_first();
        assert(s.subrange(e + 1, s.len() as int) =~= join_lines(rest) + tail) by {
            assert(s.subrange(i, s.len() as int) =~= l0 + seq!['\n'] + (join_lines(rest) + tail));
            assert forall|k: int| 0 <= k < s.len() - (e + 1) implies s.subrange(e + 1, s.len() as int)[k]
                == (join_lines(rest) + tail)[k] by {
                assert(s[e + 1 + k] == s.subrange(i, s.len() as int)[e + 1 + k - i]);
            }
        }
        assert forall|k: int| 0 <= k < rest.len() implies plain_line(#[trigger] rest[k]) by {
            assert(rest[k] == ls[k + 1]);
        }
        lemma_pieces_of_join(s, e + 1, rest, tail);
        assert(line_pieces(s, i) =~= seq![l0] + rest);
        assert(seq![l0] + rest =~= ls);
    }
}

/// Reading back the lines of joined plain lines, the last one not empty,
/// gives them again, whether or not a final line feed follows.
pub proof fn lemma_lines_of_join(ls: Seq<Seq<char>>, tail: Seq<char>)
    requires
        ls.len() >= 1,
        tail == Seq::<char>::empty() || tail == seq!['\n'],
        forall|k: int| 0 <= k < ls.len() ==> plain_line(#[trigger] ls[k]),
        ls.last().len() > 0,
    ensures
        spec_lines(join_lines(ls) + tail) == ls,
{
    let s = join_lines(ls) + tail;
    assert(s.subrange(0, s.len() as int) =~= s);
    lemma_pieces_of_join(s, 0, ls, tail);
}


/// No stretch of `t` without a line feed is longer than `m`.
pub open spec fn short_lines(t: Seq<char>, m: int) -> bool {
    forall|i: int, j: int|
        0 <= i <= j <= t.len() && !crate::lex::has_newline(t, i, j) ==> j - i <= m
}

/// Empty, or ending with a line feed.
pub open spec fn ends_line(t: Seq<char>) -> bool {
    t.len() == 0 || t.last() == '\n'
}

pub proof fn lemma_short_lines_concat(a: Seq<char>, b: Seq<char>, m: int)
    requires
        short_lines(a, m),
        short_lines(b, m),
        ends_line(a),
    ensures
        short_lines(a + b, m),
{
    let t = a + b;
    assert forall|i: int, j: int|
        0 <= i <= j <= t.len() && !crate::lex::has_newline(t, i, j) implies j - i <= m by {
        if j <= a.len() {
            assert forall|k: int| i <= k < j implies a[k] != '\n' by {
                assert(t[k] == a[k]);
            }
            assert(!crate::lex::has_newline(a, i, j));
        } else if i >= a.len() {
            assert forall|k: int| i - a.len() <= k < j - a.len() implies b[k] != '\n' by {
                assert(t[k + a.len()] == b[k]);
            }
            assert(!crate::lex::has_newline(b, i - a.len(), j - a.len()));
        } else {
            assert(t[a.len() - 1] == a.last());
        }
    }
}

pub proof fn lemma_short_lines_prefix(t: Seq<char>, n: int, m: int)
    requires
        short_lines(t, m),
        0 <= n <= t.len(),
    ensures
        short_lines(t.take(n), m),
{
    let p = t.take(n);
    assert forall|i: int, j: int|
        0 <= i <= j <= p.len() && !crate::lex::has_newline(p, i, j) implies j - i <= m by {
        assert forall|k: int| i <= k < j implies t[k] != '\n' by {
            assert(p[k] == t[k]);
        }
        assert(!crate::lex::has_newline(t, i, j));
    }
}

/// A line with no line feed, then a line feed.
pub proof fn lemma_short_lines_line(l: Seq<char>, m: int)
    requires
        l.len() <= m,
        !crate::lex::has_newline(l, 0, l.len() as int),
    ensures
        short_lines(l + seq!['\n'], m),
        ends_line(l + seq!['\n']),
{
    let t = l + seq!['\n'];
    assert forall|i: int, j: int|
        0 <= i <= j <= t.len() && !crate::lex::has_newline(t, i, j) implies j - i <= m by {
        if j == t.len() && i < j {
            assert(t[t.len() - 1] == '\n');
        }
    }
}

/// The lines of a text are no longer than its longest stretch without a line
/// feed, and hold no line feed.
pub proof fn lemma_line_pieces_short(s: Seq<char>, i: int, m: int)
    requires
        0 <= i,
        short_lines(s, m),
    ensures
        forall|k: int|
            0 <= k < line_pieces(s, i).len() ==> #[trigger] line_pieces(s, i)[k].len() <= m
                && !crate::lex::has_newline(line_pieces(s, i)[k], 0, line_pieces(s, i)[k].len() as int),
    decreases s.len() - i,
{
    if 0 <= i < s.len() {
        crate::lex::lemma_line_end(s, i);
        let e = crate::lex::line_end(s, i);
        if e < s.len() {
            lemma_line_pieces_short(s, e + 1, m);
        }
        let l = if e < s.len() && e > i && s[e - 1] == '\r' {
            s.subrange(i, e - 1)
        } else {
            s.subrange(i, e)
        };
        assert(!crate::lex::has_newline(l, 0, l.len() as int)) by {
            assert forall|k: int| 0 <= k < l.len() implies l[k] != '\n' by {
                assert(l[k] == s[i + k]);
            }
        }
        assert forall|k: int| 0 <= k < line_pieces(s, i).len() implies #[trigger] line_pieces(
            s,
            i,
        )[k].len() <= m && !crate::lex::has_newline(
            line_pieces(s, i)[k],
            0,
            line_pieces(s, i)[k].len() as int,
        ) by {
            if k > 0 && e < s.len() {
                assert(line_pieces(s, i)[k] == line_pieces(s, e + 1)[k - 1]);
            }
        }
    }
}

} // verus!
