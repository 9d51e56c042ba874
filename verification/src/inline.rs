//! Inline substitution: a fixed, order-dependent chain of five text
//! rewrite rules (image, link, inline code, strong, emphasis) applied
//! to every leaf text span.
//!
//! Each rule scans left to right; at the first position where the
//! rule's delimiters occur, the shortest span up to the next closing
//! delimiter is captured and replaced, and the scan continues after the
//! match.  Unmatched text is copied unchanged.
use vstd::prelude::*;

verus! {

/// Holds when pattern `p` occurs in `s` starting at index `k`.
pub open spec fn occurs_at(s: Seq<char>, p: Seq<char>, k: int) -> bool {
    0 <= k && k + p.len() <= s.len() && s.subrange(k, k + p.len() as int) == p
}

/// The smallest index `k >= i` where `p` occurs in `s`, or `s.len()`
/// when there is none.
pub open spec fn find_seq_from(s: Seq<char>, p: Seq<char>, i: int) -> int
    decreases s.len() - i,
{
    if i < 0 || i + p.len() > s.len() {
        s.len() as int
    } else if p.len() == 0 {
        i
    } else if occurs_at(s, p, i) {
        i
    } else {
        find_seq_from(s, p, i + 1)
    }
}

pub proof fn lemma_find_seq_from(s: Seq<char>, p: Seq<char>, i: int)
    requires
        0 <= i <= s.len(),
        p.len() >= 1,
    ensures
        i <= find_seq_from(s, p, i) <= s.len(),
        find_seq_from(s, p, i) < s.len() ==> occurs_at(s, p, find_seq_from(s, p, i)),
        forall|j: int| i <= j < find_seq_from(s, p, i) ==> !occurs_at(s, p, j),
    decreases s.len() - i,
{
    if !(i < 0 || i + p.len() > s.len()) && !occurs_at(s, p, i) {
        lemma_find_seq_from(s, p, i + 1);
    }
}

/// Decides whether `p` occurs in `s` at index `at`.
fn matches_at(s: &str, p: &str, at: usize) -> (r: bool)
    requires
        at <= s@.len(),
    ensures
        r == occurs_at(s@, p@, at as int),
{
    let n = s.unicode_len();
    let m = p.unicode_len();
    if m > n - at {
        return false;
    }
    let mut k: usize = 0;
    while k < m
        invariant
            k <= m,
            at + m <= n,
            n == s@.len(),
            m == p@.len(),
            forall|j: int| 0 <= j < k ==> s@[at + j] == p@[j],
        decreases m - k,
    {
        if s.get_char(at + k) != p.get_char(k) {
            proof {
                assert(s@.subrange(at as int, at + m) != p@) by {
                    assert(s@.subrange(at as int, at + m)[k as int] == s@[at + k]);
                }
            }
            return false;
        }
        k = k + 1;
    }
    proof {
        assert(s@.subrange(at as int, at + m) =~= p@);
    }
    true
}

/// Finds the first occurrence of `p` in `s` at index `from` or later.
fn find_seq(s: &str, p: &str, from: usize) -> (r: usize)
    requires
        from <= s@.len(),
        p@.len() >= 1,
    ensures
        r == find_seq_from(s@, p@, from as int),
{
    proof {
        lemma_find_seq_from(s@, p@, from as int);
    }
    let n = s.unicode_len();
    let mut i: usize = from;
    while i < n
        invariant
            from <= i <= n,
            n == s@.len(),
            p@.len() >= 1,
            forall|j: int| from <= j < i ==> !occurs_at(s@, p@, j),
            find_seq_from(s@, p@, from as int) >= i,
        decreases n - i,
    {
        if matches_at(s, p, i) {
            proof {
                lemma_find_seq_from(s@, p@, from as int);
            }
            return i;
        }
        proof {
            lemma_find_seq_from(s@, p@, from as int);
        }
        i = i + 1;
    }
    i
}

/// Appends the single character `s[i]` to `out`.
fn push_char_of(out: &mut String, s: &str, i: usize)
    requires
        i < s@.len(),
        i < usize::MAX,
    ensures
        final(out)@ == old(out)@ + seq![s@[i as int]],
{
    let piece = s.substring_char(i, i + 1);
    proof {
        assert(piece@ =~= seq![s@[i as int]]);
    }
    out.append(piece);
}

/// One delimiter-pair rewrite rule, from index `i` of `s` on: at the
/// first occurrence of `open`, the shortest span up to the next `close`
/// becomes `t0 + span + t1`; other text is copied unchanged.
pub open spec fn rewrite_delim(
    s: Seq<char>,
    open: Seq<char>,
    close: Seq<char>,
    t0: Seq<char>,
    t1: Seq<char>,
    i: int,
) -> Seq<char>
    decreases s.len() - i,
{
    if !(0 <= i < s.len()) {
        Seq::empty()
    } else {
        let j = find_seq_from(s, close, i + open.len());
        if occurs_at(s, open, i) && 0 < open.len() && i + open.len() <= j && j < s.len() && j
            + close.len() <= s.len() {
            t0 + s.subrange(i + open.len(), j) + t1 + rewrite_delim(
                s,
                open,
                close,
                t0,
                t1,
                j + close.len(),
            )
        } else {
            seq![s[i]] + rewrite_delim(s, open, close, t0, t1, i + 1)
        }
    }
}

/// Applies one delimiter-pair rewrite rule to the whole of `s`.
fn replace_delim(s: &str, open: &str, close: &str, t0: &str, t1: &str) -> (out: String)
    requires
        open@.len() >= 1,
        close@.len() >= 1,
    ensures
        out@ == rewrite_delim(s@, open@, close@, t0@, t1@, 0),
{
    let n = s.unicode_len();
    let open_len = open.unicode_len();
    let close_len = close.unicode_len();
    let mut out = String::new();
    let mut i: usize = 0;
    while i < n
        invariant
            i <= n,
            n == s@.len(),
            open_len == open@.len(),
            close_len == close@.len(),
            open@.len() >= 1,
            close@.len() >= 1,
            rewrite_delim(s@, open@, close@, t0@, t1@, 0) == out@ + rewrite_delim(
                s@,
                open@,
                close@,
                t0@,
                t1@,
                i as int,
            ),
        decreases n - i,
    {
        let ghost old_out = out@;
        let mut plain = true;
        if matches_at(s, open, i) {
            let start = i + open_len;
            let j = find_seq(s, close, start);
            proof {
                lemma_find_seq_from(s@, close@, start as int);
            }
            if j < n {
                out.append(t0);
                let cap = s.substring_char(start, j);
                out.append(cap);
                out.append(t1);
                proof {
                    assert(old_out + (t0@ + s@.subrange(start as int, j as int) + t1@
                        + rewrite_delim(
                        s@,
                        open@,
                        close@,
                        t0@,
                        t1@,
                        j + close@.len(),
                    )) =~= out@ + rewrite_delim(s@, open@, close@, t0@, t1@, j + close@.len()));
                }
                i = j + close_len;
                plain = false;
            }
        }
        if plain {
            push_char_of(&mut out, s, i);
            proof {
                assert(old_out + (seq![s@[i as int]] + rewrite_delim(
                    s@,
                    open@,
                    close@,
                    t0@,
                    t1@,
                    i as int + 1,
                )) =~= out@ + rewrite_delim(s@, open@, close@, t0@, t1@, i as int + 1));
            }
            i = i + 1;
        }
    }
    out
}

/// One bracket rewrite rule, from index `i` of `s` on: at the first
/// occurrence of `open`, the shortest span `a` up to the next `sep` and
/// the shortest span `b` from there up to the next `close` become
/// `t0 + b + t1 + a + t2`, with `a + t3` appended once more when `t3`
/// is present; other text is copied unchanged.
pub open spec fn rewrite_bracket(
    s: Seq<char>,
    open: Seq<char>,
    sep: Seq<char>,
    close: Seq<char>,
    t0: Seq<char>,
    t1: Seq<char>,
    t2: Seq<char>,
    t3: Option<Seq<char>>,
    i: int,
) -> Seq<char>
    decreases s.len() - i,
{
    if !(0 <= i < s.len()) {
        Seq::empty()
    } else {
        let j = find_seq_from(s, sep, i + open.len());
        let k = find_seq_from(s, close, j + sep.len());
        if occurs_at(s, open, i) && 0 < open.len() && i + open.len() <= j && j < s.len() && j
            + sep.len() <= k && k < s.len() && k + close.len() <= s.len() {
            let a = s.subrange(i + open.len(), j);
            let b = s.subrange(j + sep.len(), k);
            let tail = match t3 {
                Some(t) => a + t,
                None => Seq::empty(),
            };
            t0 + b + t1 + a + t2 + tail + rewrite_bracket(
                s,
                open,
                sep,
                close,
                t0,
                t1,
                t2,
                t3,
                k + close.len(),
            )
        } else {
            seq![s[i]] + rewrite_bracket(s, open, sep, close, t0, t1, t2, t3, i + 1)
        }
    }
}

/// Applies one bracket rewrite rule to the whole of `s`.
fn replace_bracket(
    s: &str,
    open: &str,
    sep: &str,
    close: &str,
    t0: &str,
    t1: &str,
    t2: &str,
    t3: Option<&str>,
) -> (out: String)
    requires
        open@.len() >= 1,
        sep@.len() >= 1,
        close@.len() >= 1,
    ensures
        out@ == rewrite_bracket(
            s@,
            open@,
            sep@,
            close@,
            t0@,
            t1@,
            t2@,
            match t3 {
                Some(t) => Some(t@),
                None => None,
            },
            0,
        ),
{
    let ghost t3v: Option<Seq<char>> = match t3 {
        Some(t) => Some(t@),
        None => None,
    };
    let n = s.unicode_len();
    let open_len = open.unicode_len();
    let sep_len = sep.unicode_len();
    let close_len = close.unicode_len();
    let mut out = String::new();
    let mut i: usize = 0;
    while i < n
        invariant
            i <= n,
            n == s@.len(),
            open_len == open@.len(),
            sep_len == sep@.len(),
            close_len == close@.len(),
            open@.len() >= 1,
            sep@.len() >= 1,
            close@.len() >= 1,
            t3v == match t3 {
                Some(t) => Some(t@),
                None => None::<Seq<char>>,
            },
            rewrite_bracket(s@, open@, sep@, close@, t0@, t1@, t2@, t3v, 0) == out@
                + rewrite_bracket(s@, open@, sep@, close@, t0@, t1@, t2@, t3v, i as int),
        decreases n - i,
    {
        let ghost old_out = out@;
        let mut plain = true;
        if matches_at(s, open, i) {
            let a_start = i + open_len;
            let j = find_seq(s, sep, a_start);
            proof {
                lemma_find_seq_from(s@, sep@, a_start as int);
            }
            if j < n {
                let b_start = j + sep_len;
                let k = find_seq(s, close, b_start);
                proof {
                    lemma_find_seq_from(s@, close@, b_start as int);
                }
                if k < n {
                    out.append(t0);
                    let b = s.substring_char(b_start, k);
                    out.append(b);
                    out.append(t1);
                    let a = s.substring_char(a_start, j);
                    out.append(a);
                    out.append(t2);
                    match t3 {
                        Some(t) => {
                            out.append(a);
                            out.append(t);
                        },
                        None => {},
                    }
                    proof {
                        let av = s@.subrange(a_start as int, j as int);
                        let bv = s@.subrange(b_start as int, k as int);
                        let tailv = match t3v {
                            Some(t) => av + t,
                            None => Seq::<char>::empty(),
                        };
                        assert(out@ =~= old_out + (t0@ + bv + t1@ + av + t2@ + tailv));
                        assert(old_out + (t0@ + bv + t1@ + av + t2@ + tailv + rewrite_bracket(
                            s@,
                            open@,
                            sep@,
                            close@,
                            t0@,
                            t1@,
                            t2@,
                            t3v,
                            k + close@.len(),
                        )) =~= out@ + rewrite_bracket(
                            s@,
                            open@,
                            sep@,
                            close@,
                            t0@,
                            t1@,
                            t2@,
                            t3v,
                            k + close@.len(),
                        ));
                    }
                    i = k + close_len;
                    plain = false;
                }
            }
        }
        if plain {
            push_char_of(&mut out, s, i);
            proof {
                assert(old_out + (seq![s@[i as int]] + rewrite_bracket(
                    s@,
                    open@,
                    sep@,
                    close@,
                    t0@,
                    t1@,
                    t2@,
                    t3v,
                    i as int + 1,
                )) =~= out@ + rewrite_bracket(s@, open@, sep@, close@, t0@, t1@, t2@, t3v, i as int
                    + 1));
            }
            i = i + 1;
        }
    }
    out
}

proof fn lemma_delim_no_open(
    s: Seq<char>,
    open: Seq<char>,
    close: Seq<char>,
    t0: Seq<char>,
    t1: Seq<char>,
    i: int,
)
    requires
        0 <= i <= s.len(),
        forall|k: int| !occurs_at(s, open, k),
    ensures
        rewrite_delim(s, open, close, t0, t1, i) == s.skip(i),
    decreases s.len() - i,
{
    if 0 <= i && i < s.len() {
        lemma_delim_no_open(s, open, close, t0, t1, i + 1);
        assert(seq![s[i]] + s.skip(i + 1) =~= s.skip(i));
    } else {
        assert(s.skip(i) =~= Seq::<char>::empty());
    }
}

proof fn lemma_bracket_no_open(
    s: Seq<char>,
    open: Seq<char>,
    sep: Seq<char>,
    close: Seq<char>,
    t0: Seq<char>,
    t1: Seq<char>,
    t2: Seq<char>,
    t3: Option<Seq<char>>,
    i: int,
)
    requires
        0 <= i <= s.len(),
        forall|k: int| !occurs_at(s, open, k),
    ensures
        rewrite_bracket(s, open, sep, close, t0, t1, t2, t3, i) == s.skip(i),
    decreases s.len() - i,
{
    if 0 <= i && i < s.len() {
        lemma_bracket_no_open(s, open, sep, close, t0, t1, t2, t3, i + 1);
        assert(seq![s[i]] + s.skip(i + 1) =~= s.skip(i));
    } else {
        assert(s.skip(i) =~= Seq::<char>::empty());
    }
}

/// Text that holds none of the inline markup characters `[`, `` ` ``
/// and `*` passes through the whole substitution chain unchanged.
pub proof fn lemma_inline_plain_text(s: Seq<char>)
    requires
        forall|i: int| 0 <= i < s.len() ==> s[i] != '[' && s[i] != '`' && s[i] != '*',
    ensures
        inline_spec(s) == s,
{
    reveal_strlit("![");
    reveal_strlit("[");
    reveal_strlit("`");
    reveal_strlit("**");
    reveal_strlit("*");
    assert forall|k: int| !occurs_at(s, "!["@, k) by {
        if occurs_at(s, "!["@, k) {
            assert(s.subrange(k, k + 2)[1] == s[k + 1]);
        }
    }
    lemma_bracket_no_open(
        s,
        "!["@,
        "]("@,
        ")"@,
        "<img class=\"flav-md-img\" src=\""@,
        "\" alt=\""@,
        "\">"@,
        None,
        0,
    );
    assert(s.skip(0) =~= s);
    assert(image_rewrite(s) == s);
    assert forall|k: int| !occurs_at(s, "["@, k) by {
        if occurs_at(s, "["@, k) {
            assert(s.subrange(k, k + 1)[0] == s[k]);
        }
    }
    lemma_bracket_no_open(
        s,
        "["@,
        "]("@,
        ")"@,
        "<a class=\"flav-md-a\" href=\""@,
        "\" alt=\""@,
        "\">"@,
        Some("</a>"@),
        0,
    );
    assert(link_rewrite(s) == s);
    assert forall|k: int| !occurs_at(s, "`"@, k) by {
        if occurs_at(s, "`"@, k) {
            assert(s.subrange(k, k + 1)[0] == s[k]);
        }
    }
    lemma_delim_no_open(s, "`"@, "`"@, "<code class=\"flav-md-code-inline\">"@, "</code>"@, 0);
    assert(code_rewrite(s) == s);
    assert forall|k: int| !occurs_at(s, "**"@, k) by {
        if occurs_at(s, "**"@, k) {
            assert(s.subrange(k, k + 2)[0] == s[k]);
        }
    }
    lemma_delim_no_open(s, "**"@, "**"@, "<strong class=\"flav-md-strong\">"@, "</strong>"@, 0);
    assert(strong_rewrite(s) == s);
    assert forall|k: int| !occurs_at(s, "*"@, k) by {
        if occurs_at(s, "*"@, k) {
            assert(s.subrange(k, k + 1)[0] == s[k]);
        }
    }
    lemma_delim_no_open(s, "*"@, "*"@, "<em class=\"flav-md-em\">"@, "</em>"@, 0);
    assert(em_rewrite(s) == s);
}

/// The image rule: `![alt](url)` becomes an `<img>` tag.
pub open spec fn image_rewrite(s: Seq<char>) -> Seq<char> {
    rewrite_bracket(
        s,
        "!["@,
        "]("@,
        ")"@,
        "<img class=\"flav-md-img\" src=\""@,
        "\" alt=\""@,
        "\">"@,
        None,
        0,
    )
}

/// The link rule: `[text](url)` becomes an `<a>` tag.
pub open spec fn link_rewrite(s: Seq<char>) -> Seq<char> {
    rewrite_bracket(
        s,
        "["@,
        "]("@,
        ")"@,
        "<a class=\"flav-md-a\" href=\""@,
        "\" alt=\""@,
        "\">"@,
        Some("</a>"@),
        0,
    )
}

/// The inline-code rule: `` `text` `` becomes a `<code>` tag.
pub open spec fn code_rewrite(s: Seq<char>) -> Seq<char> {
    rewrite_delim(s, "`"@, "`"@, "<code class=\"flav-md-code-inline\">"@, "</code>"@, 0)
}

/// The strong rule: `**text**` becomes a `<strong>` tag.
pub open spec fn strong_rewrite(s: Seq<char>) -> Seq<char> {
    rewrite_delim(s, "**"@, "**"@, "<strong class=\"flav-md-strong\">"@, "</strong>"@, 0)
}

/// The emphasis rule: `*text*` becomes an `<em>` tag.
pub open spec fn em_rewrite(s: Seq<char>) -> Seq<char> {
    rewrite_delim(s, "*"@, "*"@, "<em class=\"flav-md-em\">"@, "</em>"@, 0)
}

/// The full inline substitution chain, in its fixed order: image, then
/// link, then inline code, then strong, then emphasis.
pub open spec fn inline_spec(s: Seq<char>) -> Seq<char> {
    em_rewrite(strong_rewrite(code_rewrite(link_rewrite(image_rewrite(s)))))
}

/// Applies the five inline rewrite rules to a leaf text span, in order.
pub fn inline_parse(input: &String) -> (r: String)
    ensures
        r@ == inline_spec(input@),
{
    proof {
        reveal_strlit("![");
        reveal_strlit("[");
        reveal_strlit("](");
        reveal_strlit(")");
        reveal_strlit("`");
        reveal_strlit("**");
        reveal_strlit("*");
    }
    let a = replace_bracket(
        input.as_str(),
        "![",
        "](",
        ")",
        "<img class=\"flav-md-img\" src=\"",
        "\" alt=\"",
        "\">",
        None,
    );
    let b = replace_bracket(
        a.as_str(),
        "[",
        "](",
        ")",
        "<a class=\"flav-md-a\" href=\"",
        "\" alt=\"",
        "\">",
        Some("</a>"),
    );
    let c = replace_delim(b.as_str(), "`", "`", "<code class=\"flav-md-code-inline\">", "</code>");
    let d = replace_delim(c.as_str(), "**", "**", "<strong class=\"flav-md-strong\">", "</strong>");
    let e = replace_delim(d.as_str(), "*", "*", "<em class=\"flav-md-em\">", "</em>");
    e
}

} // verus!
