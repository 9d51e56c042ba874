//! Line splitting and HTML-entity escaping of code text.
use vstd::prelude::*;

verus! {

/// The smallest index `k` with `i <= k < s.len()` and `s[k] == c`, or
/// `s.len()` when no such index exists.
pub open spec fn find_char_from(s: Seq<char>, c: char, i: int) -> int
    decreases s.len() - i,
{
    if i < 0 || i >= s.len() {
        s.len() as int
    } else if s[i] == c {
        i
    } else {
        find_char_from(s, c, i + 1)
    }
}

pub proof fn lemma_find_char_from(s: Seq<char>, c: char, i: int)
    requires
        0 <= i <= s.len(),
    ensures
        i <= find_char_from(s, c, i) <= s.len(),
        find_char_from(s, c, i) < s.len() ==> s[find_char_from(s, c, i)] == c,
        forall|j: int| i <= j < find_char_from(s, c, i) ==> s[j] != c,
    decreases s.len() - i,
{
    if i < s.len() && s[i] != c {
        lemma_find_char_from(s, c, i + 1);
    }
}

/// Finds the first occurrence of `c` at index `from` or later.
pub fn find_char(s: &str, from: usize, c: char) -> (r: usize)
    requires
        from <= s@.len(),
    ensures
        r == find_char_from(s@, c, from as int),
{
    proof {
        lemma_find_char_from(s@, c, from as int);
    }
    let n = s.unicode_len();
    let mut i: usize = from;
    while i < n
        invariant
            from <= i <= n,
            n == s@.len(),
            forall|j: int| from <= j < i ==> s@[j] != c,
            find_char_from(s@, c, from as int) >= i,
        decreases n - i,
    {
        if s.get_char(i) == c {
            proof {
                lemma_find_char_from(s@, c, from as int);
            }
            return i;
        }
        proof {
            lemma_find_char_from(s@, c, from as int);
        }
        i = i + 1;
    }
    i
}

/// The pieces of `s` between `'\n'` separators, in order.  An input
/// without a separator is a single piece, so the empty input gives one
/// empty piece.
pub open spec fn split_lines(s: Seq<char>) -> Seq<Seq<char>>
    decreases s.len(),
{
    let k = find_char_from(s, '\n', 0);
    if 0 <= k < s.len() {
        seq![s.take(k)] + split_lines(s.skip(k + 1))
    } else {
        seq![s]
    }
}

proof fn lemma_find_char_from_shift(s: Seq<char>, c: char, d: int, i: int)
    requires
        0 <= d <= s.len(),
        0 <= i <= s.len() - d,
    ensures
        find_char_from(s.skip(d), c, i) == find_char_from(s, c, d + i) - d,
    decreases s.len() - d - i,
{
    if i < s.skip(d).len() && s.skip(d)[i] != c {
        lemma_find_char_from_shift(s, c, d, i + 1);
    }
}

/// Splits a document into its lines on the `'\n'` separator.
pub fn split_string(content: String) -> (r: Vec<String>)
    ensures
        r.deep_view() == split_lines(content@),
{
    let s = content.as_str();
    let n = s.unicode_len();
    let mut r: Vec<String> = Vec::new();
    let mut i: usize = 0;
    proof {
        assert(content@.skip(0) =~= content@);
        assert(r.deep_view() =~= Seq::<Seq<char>>::empty());
    }
    loop
        invariant
            i <= n,
            n == s@.len(),
            s@ == content@,
            split_lines(content@) == r.deep_view() + split_lines(content@.skip(i as int)),
        ensures
            r.deep_view() == split_lines(content@),
        decreases n - i,
    {
        let k = find_char(s, i, '\n');
        proof {
            lemma_find_char_from(s@, '\n', i as int);
            lemma_find_char_from_shift(s@, '\n', i as int, 0);
        }
        let piece = s.substring_char(i, k).to_owned();
        let ghost old_dv = r.deep_view();
        r.push(piece);
        proof {
            assert(r.deep_view() =~= old_dv.push(piece@));
            let suf = content@.skip(i as int);
            assert(find_char_from(suf, '\n', 0) == k - i);
            assert(piece@ =~= suf.take(k - i));
        }
        if k < n {
            proof {
                let suf = content@.skip(i as int);
                assert(suf.skip(k - i + 1) =~= content@.skip(k + 1));
                assert(split_lines(suf) == seq![suf.take(k - i)] + split_lines(
                    content@.skip(k + 1),
                ));
                assert(r.deep_view() + split_lines(content@.skip(k + 1)) =~= old_dv + split_lines(
                    content@.skip(i as int),
                ));
            }
            i = k + 1;
        } else {
            proof {
                let suf = content@.skip(i as int);
                assert(suf.take(k - i) =~= suf);
                assert(split_lines(suf) == seq![suf]);
                assert(r.deep_view() =~= old_dv + split_lines(content@.skip(i as int)));
            }
            return r;
        }
    }
}

/// Clones the lines of `v` with indices in `[from, to)`.
pub fn subvec_strings_range(v: &Vec<String>, from: usize, to: usize) -> (r: Vec<String>)
    requires
        from <= to <= v.len(),
    ensures
        r.deep_view() == v.deep_view().subrange(from as int, to as int),
{
    let mut r: Vec<String> = Vec::new();
    let mut i: usize = from;
    while i < to
        invariant
            from <= i <= to <= v.len(),
            r.deep_view() =~= v.deep_view().subrange(from as int, i as int),
        decreases to - i,
    {
        let piece = v[i].clone();
        let ghost old_dv = r.deep_view();
        r.push(piece);
        proof {
            assert(r.deep_view() =~= old_dv.push(piece@));
            assert(piece@ == v.deep_view()[i as int]);
            assert(r.deep_view() =~= v.deep_view().subrange(from as int, i as int + 1));
        }
        i = i + 1;
    }
    r
}

/// Clones the tail of a line sequence, from `from` on.
pub fn subvec_strings(v: &Vec<String>, from: usize) -> (r: Vec<String>)
    requires
        from <= v.len(),
    ensures
        r.deep_view() == v.deep_view().skip(from as int),
{
    let r = subvec_strings_range(v, from, v.len());
    proof {
        assert(v.deep_view().subrange(from as int, v.len() as int) =~= v.deep_view().skip(
            from as int,
        ));
    }
    r
}

/// The whitespace characters that may pad list markers, quote
/// markers and table cells: the Unicode white-space set.
pub open spec fn is_ws(c: char) -> bool {
    ||| c == ' '
    ||| c == '\t'
    ||| c == '\n'
    ||| c == '\u{0b}'
    ||| c == '\u{0c}'
    ||| c == '\r'
    ||| c == '\u{85}'
    ||| c == '\u{a0}'
    ||| c == '\u{1680}'
    ||| ('\u{2000}' <= c && c <= '\u{200a}')
    ||| c == '\u{2028}'
    ||| c == '\u{2029}'
    ||| c == '\u{202f}'
    ||| c == '\u{205f}'
    ||| c == '\u{3000}'
}

/// Decides whether a character is whitespace.
pub fn is_ws_char(c: char) -> (r: bool)
    ensures
        r == is_ws(c),
{
    c == ' ' || c == '\t' || c == '\n' || c == '\u{0b}' || c == '\u{0c}' || c == '\r' || c
        == '\u{85}' || c == '\u{a0}' || c == '\u{1680}' || ('\u{2000}' <= c && c <= '\u{200a}')
        || c == '\u{2028}' || c == '\u{2029}' || c == '\u{202f}' || c == '\u{205f}' || c
        == '\u{3000}'
}

/// An ASCII decimal digit.
pub open spec fn is_digit(c: char) -> bool {
    '0' <= c && c <= '9'
}

/// The smallest index `k` with `i <= k < s.len()` where `s[k]` is not
/// whitespace, or `s.len()` when the rest is all whitespace.
pub open spec fn skip_ws_from(s: Seq<char>, i: int) -> int
    decreases s.len() - i,
{
    if i < 0 || i >= s.len() {
        s.len() as int
    } else if !is_ws(s[i]) {
        i
    } else {
        skip_ws_from(s, i + 1)
    }
}

pub proof fn lemma_skip_ws_from(s: Seq<char>, i: int)
    requires
        0 <= i <= s.len(),
    ensures
        i <= skip_ws_from(s, i) <= s.len(),
        skip_ws_from(s, i) < s.len() ==> !is_ws(s[skip_ws_from(s, i)]),
        forall|j: int| i <= j < skip_ws_from(s, i) ==> is_ws(s[j]),
    decreases s.len() - i,
{
    if i < s.len() && is_ws(s[i]) {
        lemma_skip_ws_from(s, i + 1);
    }
}

/// Finds the first non-whitespace character at index `from` or later.
pub fn skip_ws(s: &str, from: usize) -> (r: usize)
    requires
        from <= s@.len(),
    ensures
        r == skip_ws_from(s@, from as int),
{
    proof {
        lemma_skip_ws_from(s@, from as int);
    }
    let n = s.unicode_len();
    let mut i: usize = from;
    while i < n
        invariant
            from <= i <= n,
            n == s@.len(),
            forall|j: int| from <= j < i ==> is_ws(s@[j]),
            skip_ws_from(s@, from as int) >= i,
        decreases n - i,
    {
        let c = s.get_char(i);
        if !is_ws_char(c) {
            proof {
                lemma_skip_ws_from(s@, from as int);
            }
            return i;
        }
        proof {
            lemma_skip_ws_from(s@, from as int);
        }
        i = i + 1;
    }
    i
}

/// The smallest index `k` with `i <= k < s.len()` where `s[k]` is not
/// an ASCII digit, or `s.len()` when the rest is all digits.
pub open spec fn skip_digits_from(s: Seq<char>, i: int) -> int
    decreases s.len() - i,
{
    if i < 0 || i >= s.len() {
        s.len() as int
    } else if !is_digit(s[i]) {
        i
    } else {
        skip_digits_from(s, i + 1)
    }
}

pub proof fn lemma_skip_digits_from(s: Seq<char>, i: int)
    requires
        0 <= i <= s.len(),
    ensures
        i <= skip_digits_from(s, i) <= s.len(),
        skip_digits_from(s, i) < s.len() ==> !is_digit(s[skip_digits_from(s, i)]),
        forall|j: int| i <= j < skip_digits_from(s, i) ==> is_digit(s[j]),
    decreases s.len() - i,
{
    if i < s.len() && is_digit(s[i]) {
        lemma_skip_digits_from(s, i + 1);
    }
}

/// Finds the first non-digit character at index `from` or later.
pub fn skip_digits(s: &str, from: usize) -> (r: usize)
    requires
        from <= s@.len(),
    ensures
        r == skip_digits_from(s@, from as int),
{
    proof {
        lemma_skip_digits_from(s@, from as int);
    }
    let n = s.unicode_len();
    let mut i: usize = from;
    while i < n
        invariant
            from <= i <= n,
            n == s@.len(),
            forall|j: int| from <= j < i ==> is_digit(s@[j]),
            skip_digits_from(s@, from as int) >= i,
        decreases n - i,
    {
        let c = s.get_char(i);
        if !('0' <= c && c <= '9') {
            proof {
                lemma_skip_digits_from(s@, from as int);
            }
            return i;
        }
        proof {
            lemma_skip_digits_from(s@, from as int);
        }
        i = i + 1;
    }
    i
}

/// The pieces of `v` joined with the separator `sep`.
pub open spec fn join_sep(v: Seq<Seq<char>>, sep: Seq<char>) -> Seq<char>
    decreases v.len(),
{
    if v.len() == 0 {
        Seq::empty()
    } else if v.len() == 1 {
        v.first()
    } else {
        v.first() + sep + join_sep(v.drop_first(), sep)
    }
}

/// Joins the pieces of `v` with the separator `sep`.
pub fn join_with(v: &Vec<String>, sep: &str) -> (r: String)
    ensures
        r@ == join_sep(v.deep_view(), sep@),
{
    let mut out = String::new();
    if v.len() == 0 {
        proof {
            assert(out@ =~= Seq::<char>::empty());
        }
        return out;
    }
    let ghost dv = v.deep_view();
    let mut i: usize = 0;
    proof {
        assert(dv.skip(0) =~= dv);
    }
    while i < v.len() - 1
        invariant
            v.len() >= 1,
            i <= v.len() - 1,
            dv == v.deep_view(),
            join_sep(dv, sep@) == out@ + join_sep(dv.skip(i as int), sep@),
        decreases v.len() - i,
    {
        out.append(v[i].as_str());
        out.append(sep);
        proof {
            assert(dv.skip(i as int).first() == dv[i as int]);
            assert(dv.skip(i as int).drop_first() =~= dv.skip(i as int + 1));
            assert(v[i as int]@ == dv[i as int]);
        }
        i = i + 1;
    }
    out.append(v[i].as_str());
    proof {
        assert(dv.skip(i as int).len() == 1);
        assert(dv.skip(i as int).first() == dv[i as int]);
        assert(v[i as int]@ == dv[i as int]);
    }
    out
}

/// The HTML-entity expansion of one character of code text.
pub open spec fn escape_char(c: char) -> Seq<char> {
    if c == '&' {
        "&amp;"@
    } else if c == '<' {
        "&lt;"@
    } else if c == '>' {
        "&gt;"@
    } else if c == '"' {
        "&quot;"@
    } else if c == '\'' {
        "&#39;"@
    } else {
        seq![c]
    }
}

/// The HTML-entity escaping of a whole span of code text.
pub open spec fn escape_seq(s: Seq<char>) -> Seq<char>
    decreases s.len(),
{
    if s.len() == 0 {
        Seq::empty()
    } else {
        escape_char(s[0]) + escape_seq(s.drop_first())
    }
}

/// Escapes `&`, `<`, `>`, `"` and `'` in code text as HTML entities.
pub fn escape_code_string(content: &String) -> (r: String)
    ensures
        r@ == escape_seq(content@),
{
    let s = content.as_str();
    let n = s.unicode_len();
    let mut out = String::new();
    let mut i: usize = 0;
    proof {
        assert(content@.skip(0) =~= content@);
    }
    while i < n
        invariant
            i <= n,
            n == s@.len(),
            s@ == content@,
            out@ + escape_seq(content@.skip(i as int)) == escape_seq(content@),
        decreases n - i,
    {
        let c = s.get_char(i);
        let ghost old_out = out@;
        if c == '&' {
            out.append("&amp;");
        } else if c == '<' {
            out.append("&lt;");
        } else if c == '>' {
            out.append("&gt;");
        } else if c == '"' {
            out.append("&quot;");
        } else if c == '\'' {
            out.append("&#39;");
        } else {
            let piece = s.substring_char(i, i + 1);
            out.append(piece);
            proof {
                assert(piece@ =~= seq![content@[i as int]]);
            }
        }
        proof {
            let suf = content@.skip(i as int);
            assert(suf.drop_first() =~= content@.skip(i as int + 1));
            assert(out@ == old_out + escape_char(content@[i as int]));
            assert(out@ + escape_seq(content@.skip(i as int + 1)) =~= escape_seq(content@));
        }
        i = i + 1;
    }
    proof {
        assert(content@.skip(n as int) =~= Seq::<char>::empty());
        assert(out@ =~= escape_seq(content@));
    }
    out
}

} // verus!
