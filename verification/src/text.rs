//! Character-level text utilities shared by the grid parser and the
//! renderer: conversions between `String` and `Vec<char>`, line splitting,
//! and whitespace trimming.

use vstd::prelude::*;

verus! {

/// Relies on `String`'s `FromIterator<char>` impl: collecting chars yields
/// the string of exactly those chars in order.
#[verifier::external_body]
pub fn chars_to_string(v: &Vec<char>) -> (s: String)
    ensures
        s@ == v@,
{
    v.iter().collect()
}

/// The characters of `s`, in order, as a vector.
pub fn str_to_chars(s: &str) -> (v: Vec<char>)
    ensures
        v@ == s@,
{
    let n = s.unicode_len();
    let mut v: Vec<char> = Vec::new();
    let mut i: usize = 0;
    while i < n
        invariant
            i <= n,
            n == s@.len(),
            v@ == s@.take(i as int),
        decreases n - i,
    {
        v.push(s.get_char(i));
        proof {
            assert(s@.take(i + 1) =~= s@.take(i as int).push(s@[i as int]));
        }
        i = i + 1;
    }
    proof {
        assert(s@.take(n as int) =~= s@);
    }
    v
}

/// A character the line trimmer removes at line ends: the Unicode
/// White_Space set (the characters `str::trim` removes), written out.
pub open spec fn is_blank(c: char) -> bool {
    ||| c == '\t' || c == '\n' || c == '\u{0B}' || c == '\u{0C}' || c == '\r' || c == ' '
    ||| c == '\u{85}' || c == '\u{A0}' || c == '\u{1680}'
    ||| c == '\u{2000}' || c == '\u{2001}' || c == '\u{2002}' || c == '\u{2003}'
    ||| c == '\u{2004}' || c == '\u{2005}' || c == '\u{2006}' || c == '\u{2007}'
    ||| c == '\u{2008}' || c == '\u{2009}' || c == '\u{200A}'
    ||| c == '\u{2028}' || c == '\u{2029}' || c == '\u{202F}' || c == '\u{205F}'
    ||| c == '\u{3000}'
}

/// Executable mirror of [`is_blank`].
pub fn blank_char(c: char) -> (r: bool)
    ensures
        r == is_blank(c),
{
    c == '\t' || c == '\n' || c == '\u{0B}' || c == '\u{0C}' || c == '\r' || c == ' '
        || c == '\u{85}' || c == '\u{A0}' || c == '\u{1680}' || c == '\u{2000}'
        || c == '\u{2001}' || c == '\u{2002}' || c == '\u{2003}' || c == '\u{2004}'
        || c == '\u{2005}' || c == '\u{2006}' || c == '\u{2007}' || c == '\u{2008}'
        || c == '\u{2009}' || c == '\u{200A}' || c == '\u{2028}' || c == '\u{2029}'
        || c == '\u{202F}' || c == '\u{205F}' || c == '\u{3000}'
}


/// Index of the first newline in `s`, or `s.len()` when there is none.
pub open spec fn first_nl(s: Seq<char>) -> int
    decreases s.len(),
{
    if s.len() == 0 {
        0
    } else if s[0] == '\n' {
        0
    } else {
        1 + first_nl(s.drop_first())
    }
}

/// Where the first `k` characters hold no newline and position `k` does
/// (or is the end), the first newline is at `k`.
pub proof fn lemma_first_nl_at(s: Seq<char>, k: int)
    requires
        0 <= k <= s.len(),
        forall|j: int| 0 <= j < k ==> s[j] != '\n',
        k == s.len() || s[k] == '\n',
    ensures
        first_nl(s) == k,
    decreases k,
{
    if s.len() > 0 && k > 0 {
        assert(s[0] != '\n');
        assert forall|j: int| 0 <= j < k - 1 implies s.drop_first()[j] != '\n' by {
            assert(s[j + 1] != '\n');
        }
        lemma_first_nl_at(s.drop_first(), k - 1);
    }
}

/// The lines of `s`: split at newlines, a trailing newline closing the
/// last line rather than opening an empty one.
pub open spec fn spec_lines(s: Seq<char>) -> Seq<Seq<char>>
    decreases s.len(),
{
    if s.len() == 0 {
        Seq::empty()
    } else {
        let i = first_nl(s);
        if 0 <= i < s.len() {
            seq![s.take(i)] + spec_lines(s.skip(i + 1))
        } else {
            seq![s]
        }
    }
}

/// Splits a character sequence into its lines.
pub fn split_lines(v: &Vec<char>) -> (r: Vec<Vec<char>>)
    ensures
        r.deep_view() == spec_lines(v@),
{
    let n = v.len();
    let mut out: Vec<Vec<char>> = Vec::new();
    let mut cur: Vec<char> = Vec::new();
    let mut start: usize = 0;
    let mut i: usize = 0;
    proof {
        assert(v@.skip(0) =~= v@);
        assert(out.deep_view() + spec_lines(v@) =~= spec_lines(v@));
        assert(cur@ =~= v@.subrange(0, 0));
    }
    while i < n
        invariant
            start <= i <= n,
            n == v@.len(),
            cur@ == v@.subrange(start as int, i as int),
            forall|j: int| start <= j < i ==> v@[j] != '\n',
            spec_lines(v@) == out.deep_view() + spec_lines(v@.skip(start as int)),
        decreases n - i,
    {
        let c = v[i];
        if c == '\n' {
            proof {
                let rest = v@.skip(start as int);
                assert forall|j: int| 0 <= j < i - start implies rest[j] != '\n' by {
                    assert(v@[start + j] != '\n');
                }
                assert(rest[i - start] == '\n');
                lemma_first_nl_at(rest, i - start);
                assert(rest.take(i - start) =~= v@.subrange(start as int, i as int));
                assert(rest.skip(i - start + 1) =~= v@.skip(i + 1));
                assert(spec_lines(rest) == seq![cur@] + spec_lines(v@.skip(i + 1)));
            }
            let ghost dv0 = out.deep_view();
            let ghost len0 = out@.len();
            out.push(cur);
            proof {
                assert(out@.len() == len0 + 1);
                assert(out.deep_view()[len0 as int] =~= v@.subrange(start as int, i as int));
                assert forall|j: int| 0 <= j < len0 implies out.deep_view()[j] == dv0[j] by {
                }
                assert(out.deep_view() =~= dv0 + seq![v@.subrange(start as int, i as int)]);
                assert(out.deep_view() + spec_lines(v@.skip(i + 1)) =~= dv0 + spec_lines(
                    v@.skip(start as int),
                ));
            }
            cur = Vec::new();
            start = i + 1;
            proof {
                assert(cur@ =~= v@.subrange(start as int, start as int));
            }
        } else {
            cur.push(c);
            proof {
                assert(cur@ =~= v@.subrange(start as int, i + 1));
            }
        }
        i = i + 1;
    }
    if cur.len() > 0 {
        proof {
            let rest = v@.skip(start as int);
            assert(rest =~= v@.subrange(start as int, n as int));
            assert(rest == cur@);
            assert forall|j: int| 0 <= j < rest.len() implies rest[j] != '\n' by {
                assert(v@[start + j] != '\n');
            }
            lemma_first_nl_at(rest, rest.len() as int);
            assert(spec_lines(rest) =~= seq![cur@]);
        }
        let ghost dv0 = out.deep_view();
        let ghost len0 = out@.len();
        let ghost curv = cur@;
        out.push(cur);
        proof {
            assert(out@.len() == len0 + 1);
            assert(out.deep_view()[len0 as int] =~= curv);
            assert forall|j: int| 0 <= j < len0 implies out.deep_view()[j] == dv0[j] by {
            }
            assert(out.deep_view() =~= dv0 + seq![curv]);
            assert(out.deep_view() =~= spec_lines(v@));
        }
    } else {
        proof {
            let rest = v@.skip(start as int);
            assert(rest.len() == 0);
            assert(out.deep_view() + spec_lines(rest) =~= out.deep_view());
        }
    }
    out
}


/// Count of blank characters at the start of a line.
pub open spec fn leading_blanks(s: Seq<char>) -> int
    decreases s.len(),
{
    if s.len() == 0 {
        0
    } else if is_blank(s[0]) {
        1 + leading_blanks(s.drop_first())
    } else {
        0
    }
}

/// Count of blank characters at the end of a line.
pub open spec fn trailing_blanks(s: Seq<char>) -> int
    decreases s.len(),
{
    if s.len() == 0 {
        0
    } else if is_blank(s.last()) {
        1 + trailing_blanks(s.drop_last())
    } else {
        0
    }
}

/// Where the first `k` characters are blank and position `k` is not (or
/// is the end), exactly `k` characters lead.
pub proof fn lemma_leading_blanks_at(s: Seq<char>, k: int)
    requires
        0 <= k <= s.len(),
        forall|j: int| 0 <= j < k ==> is_blank(s[j]),
        k == s.len() || !is_blank(s[k]),
    ensures
        leading_blanks(s) == k,
    decreases s.len(),
{
    if s.len() > 0 && k > 0 {
        assert(is_blank(s[0]));
        assert forall|j: int| 0 <= j < k - 1 implies is_blank(s.drop_first()[j]) by {
            assert(is_blank(s[j + 1]));
        }
        lemma_leading_blanks_at(s.drop_first(), k - 1);
    }
}

/// Where the last `k` characters are blank and the one before them is not
/// (or is the start), exactly `k` characters trail.
pub proof fn lemma_trailing_blanks_at(s: Seq<char>, k: int)
    requires
        0 <= k <= s.len(),
        forall|j: int| s.len() - k <= j < s.len() ==> is_blank(s[j]),
        k == s.len() || !is_blank(s[s.len() - k - 1]),
    ensures
        trailing_blanks(s) == k,
    decreases s.len(),
{
    if s.len() > 0 && k > 0 {
        assert(is_blank(s.last()));
        assert forall|j: int|
            s.drop_last().len() - (k - 1) <= j < s.drop_last().len() implies is_blank(
            s.drop_last()[j],
        ) by {
            assert(is_blank(s[j]));
        }
        lemma_trailing_blanks_at(s.drop_last(), k - 1);
    }
}

/// The line with its blank ends removed.
pub open spec fn trim_line(s: Seq<char>) -> Seq<char> {
    if leading_blanks(s) == s.len() {
        Seq::empty()
    } else {
        s.subrange(leading_blanks(s), s.len() - trailing_blanks(s))
    }
}

/// Trims blanks off both ends of a line.
pub fn trim_line_chars(v: &Vec<char>) -> (r: Vec<char>)
    ensures
        r@ == trim_line(v@),
{
    let n = v.len();
    let mut a: usize = 0;
    while a < n && blank_char(v[a])
        invariant
            a <= n,
            n == v@.len(),
            forall|j: int| 0 <= j < a ==> is_blank(v@[j]),
        decreases n - a,
    {
        a = a + 1;
    }
    if a == n {
        proof {
            lemma_leading_blanks_at(v@, n as int);
            assert(trim_line(v@) =~= Seq::<char>::empty());
        }
        let r: Vec<char> = Vec::new();
        return r;
    }
    proof {
        lemma_leading_blanks_at(v@, a as int);
    }
    let mut b: usize = n;
    while b > a && blank_char(v[b - 1])
        invariant
            a <= b <= n,
            a < n,
            n == v@.len(),
            !is_blank(v@[a as int]),
            forall|j: int| b <= j < n ==> is_blank(v@[j]),
        decreases b,
    {
        b = b - 1;
    }
    proof {
        if b == a {
            assert(is_blank(v@[a as int]));
        }
        assert(b > a);
        assert(!is_blank(v@[b - 1]));
        lemma_trailing_blanks_at(v@, n - b);
        assert(v@.len() - trailing_blanks(v@) == b);
    }
    let mut r: Vec<char> = Vec::new();
    let mut i: usize = a;
    while i < b
        invariant
            a <= i <= b <= n,
            n == v@.len(),
            r@ == v@.subrange(a as int, i as int),
        decreases b - i,
    {
        r.push(v[i]);
        proof {
            assert(v@.subrange(a as int, i + 1) =~= v@.subrange(a as int, i as int).push(
                v@[i as int],
            ));
        }
        i = i + 1;
    }
    proof {
        assert(r@ == trim_line(v@));
    }
    r
}

/// Appends the characters of `src` to `dst`.
pub fn push_chars(dst: &mut Vec<char>, src: &Vec<char>)
    ensures
        final(dst)@ == old(dst)@ + src@,
{
    let n = src.len();
    let mut i: usize = 0;
    proof {
        assert(dst@ =~= old(dst)@ + src@.take(0));
    }
    while i < n
        invariant
            i <= n,
            n == src@.len(),
            dst@ == old(dst)@ + src@.take(i as int),
        decreases n - i,
    {
        dst.push(src[i]);
        proof {
            assert(dst@ =~= old(dst)@ + src@.take(i + 1));
        }
        i = i + 1;
    }
    proof {
        assert(old(dst)@ + src@.take(n as int) =~= old(dst)@ + src@);
    }
}

/// The lines joined by single newlines, none trailing.
pub open spec fn join_lines(ls: Seq<Seq<char>>) -> Seq<char>
    decreases ls.len(),
{
    if ls.len() == 0 {
        Seq::empty()
    } else if ls.len() == 1 {
        ls[0]
    } else {
        join_lines(ls.drop_last()) + seq!['\n'] + ls.last()
    }
}

/// Each line trimmed, the blank ones dropped.
pub open spec fn trimmed_lines(ls: Seq<Seq<char>>) -> Seq<Seq<char>>
    decreases ls.len(),
{
    if ls.len() == 0 {
        Seq::empty()
    } else if trim_line(ls.last()).len() > 0 {
        trimmed_lines(ls.drop_last()).push(trim_line(ls.last()))
    } else {
        trimmed_lines(ls.drop_last())
    }
}

/// The whole grid text cleaned up: every line trimmed, blank lines
/// dropped, the rest joined by single newlines.
pub open spec fn trim_grid(s: Seq<char>) -> Seq<char> {
    join_lines(trimmed_lines(spec_lines(s)))
}


/// Joining then splitting is the identity on nonempty newline-free lines.
pub proof fn lemma_join_lines_head(ls: Seq<Seq<char>>)
    requires
        ls.len() >= 2,
    ensures
        join_lines(ls) == ls[0] + seq!['\n'] + join_lines(ls.drop_first()),
    decreases ls.len(),
{
    let dl = ls.drop_last();
    if ls.len() == 2 {
        assert(dl =~= seq![ls[0]]);
        assert(join_lines(dl) == ls[0]);
        assert(ls.drop_first() =~= seq![ls[1]]);
        assert(join_lines(ls.drop_first()) == ls[1]);
        assert(ls.last() == ls[1]);
    } else {
        lemma_join_lines_head(dl);
        assert(dl[0] == ls[0]);
        assert(ls.drop_first().drop_last() =~= dl.drop_first());
        assert(ls.drop_first().len() >= 2);
        assert(ls.drop_first().last() == ls.last());
        assert(join_lines(ls.drop_first()) == join_lines(dl.drop_first()) + seq!['\n']
            + ls.last());
        assert(join_lines(ls) =~= ls[0] + seq!['\n'] + join_lines(ls.drop_first()));
    }
}

/// Splitting a newline-joined list of nonempty newline-free lines gives
/// back exactly those lines.
pub proof fn lemma_lines_of_join(ls: Seq<Seq<char>>)
    requires
        ls.len() > 0,
        forall|i: int| 0 <= i < ls.len() ==> (#[trigger] ls[i]).len() > 0,
        forall|i: int, j: int|
            0 <= i < ls.len() && 0 <= j < ls[i].len() ==> #[trigger] ls[i][j] != '\n',
    ensures
        spec_lines(join_lines(ls)) == ls,
    decreases ls.len(),
{
    if ls.len() == 1 {
        let s = join_lines(ls);
        assert(s == ls[0]);
        lemma_first_nl_at(s, s.len() as int);
        assert(spec_lines(s) =~= ls);
    } else {
        lemma_join_lines_head(ls);
        let s = join_lines(ls);
        let head = ls[0];
        let rest = join_lines(ls.drop_first());
        assert(s == head + seq!['\n'] + rest);
        assert forall|j: int| 0 <= j < head.len() implies s[j] != '\n' by {
            assert(s[j] == head[j]);
        }
        assert(s[head.len() as int] == '\n');
        lemma_first_nl_at(s, head.len() as int);
        assert(s.take(head.len() as int) =~= head);
        assert(s.skip(head.len() + 1int) =~= rest);
        assert forall|i: int| 0 <= i < ls.drop_first().len() implies (#[trigger] ls.drop_first()[i]).len()
            > 0 by {
            assert(ls.drop_first()[i] == ls[i + 1]);
        }
        assert forall|i: int, j: int|
            0 <= i < ls.drop_first().len() && 0 <= j < ls.drop_first()[i].len()
            implies #[trigger] ls.drop_first()[i][j] != '\n' by {
            assert(ls.drop_first()[i] == ls[i + 1]);
        }
        lemma_lines_of_join(ls.drop_first());
        assert(spec_lines(s) == seq![head] + spec_lines(rest));
        assert(spec_lines(s) =~= ls);
    }
}

} // verus!
