//! Blockquote markers: recognizing quoted lines and stripping one
//! leading `>` marker with its following whitespace.
use crate::util::{lemma_skip_ws_from, skip_ws, skip_ws_from};
use vstd::prelude::*;

verus! {

/// A quoted line: one that starts with `>`.
pub open spec fn is_quote_spec(s: Seq<char>) -> bool {
    s.len() > 0 && s[0] == '>'
}

/// Decides whether a line starts a quote block.
pub fn is_quote_block(input: &String) -> (r: bool)
    ensures
        r == is_quote_spec(input@),
{
    let s = input.as_str();
    if s.unicode_len() == 0 {
        false
    } else {
        s.get_char(0) == '>'
    }
}

/// One unwrapping step of a quoted line: the leading `>` and the
/// whitespace run after it are stripped.  When nothing but whitespace
/// follows the marker, the line keeps its last whitespace character;
/// a bare `>` becomes the empty line.  A line without a `>` marker is
/// kept as it is.
pub open spec fn enclose_line(s: Seq<char>) -> Seq<char> {
    if !is_quote_spec(s) {
        s
    } else {
        let w = skip_ws_from(s, 1);
        if w < s.len() {
            s.skip(w)
        } else if s.len() >= 2 {
            s.skip(s.len() - 1)
        } else {
            Seq::empty()
        }
    }
}

/// The unwrapping step applied to every line of a quoted span.
pub open spec fn enclose_lines(v: Seq<Seq<char>>) -> Seq<Seq<char>> {
    v.map_values(|s: Seq<char>| enclose_line(s))
}

/// Stripping a marker shortens a quoted line and never lengthens any
/// line.
pub proof fn lemma_enclose_line_len(s: Seq<char>)
    ensures
        enclose_line(s).len() <= s.len(),
        is_quote_spec(s) ==> enclose_line(s).len() < s.len(),
{
    if is_quote_spec(s) {
        lemma_skip_ws_from(s, 1);
    }
}

fn enclose_one(line: &String) -> (r: String)
    ensures
        r@ == enclose_line(line@),
{
    let s = line.as_str();
    let n = s.unicode_len();
    if n == 0 || s.get_char(0) != '>' {
        return line.clone();
    }
    let w = skip_ws(s, 1);
    proof {
        lemma_skip_ws_from(s@, 1);
    }
    if w < n {
        let r = s.substring_char(w, n).to_owned();
        proof {
            assert(r@ =~= line@.skip(w as int));
        }
        r
    } else if n >= 2 {
        let r = s.substring_char(n - 1, n).to_owned();
        proof {
            assert(r@ =~= line@.skip(n as int - 1));
        }
        r
    } else {
        let r = String::new();
        proof {
            assert(r@ =~= Seq::<char>::empty());
        }
        r
    }
}

/// Strips one level of quote markers from a quoted span, line by line.
pub fn enclose_quote(input: Vec<String>) -> (r: Vec<String>)
    ensures
        r.deep_view() == enclose_lines(input.deep_view()),
{
    let mut r: Vec<String> = Vec::new();
    let mut i: usize = 0;
    while i < input.len()
        invariant
            i <= input.len(),
            r.deep_view() =~= enclose_lines(input.deep_view()).take(i as int),
        decreases input.len() - i,
    {
        let piece = enclose_one(&input[i]);
        let ghost old_dv = r.deep_view();
        r.push(piece);
        proof {
            assert(r.deep_view() =~= old_dv.push(piece@));
            assert(r.deep_view() =~= enclose_lines(input.deep_view()).take(i as int + 1));
        }
        i = i + 1;
    }
    proof {
        assert(enclose_lines(input.deep_view()).take(input.len() as int) =~= enclose_lines(
            input.deep_view(),
        ));
    }
    r
}

} // verus!
