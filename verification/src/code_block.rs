//! Fenced code blocks: the fence delimiter and the escaping of the
//! lines between two fences.
use crate::util::{escape_code_string, escape_seq};
use vstd::prelude::*;

verus! {

/// A fence line: three backticks, then an optional language tag that
/// holds no backtick and no dot.
pub open spec fn is_fence_spec(s: Seq<char>) -> bool {
    &&& s.len() >= 3
    &&& s[0] == '`'
    &&& s[1] == '`'
    &&& s[2] == '`'
    &&& forall|i: int| 3 <= i < s.len() ==> s[i] != '`' && s[i] != '.'
}

/// Decides whether a line opens or closes a fenced code block.
pub fn is_code_block_start(input: &String) -> (r: bool)
    ensures
        r == is_fence_spec(input@),
{
    let s = input.as_str();
    let n = s.unicode_len();
    if n < 3 {
        return false;
    }
    if s.get_char(0) != '`' || s.get_char(1) != '`' || s.get_char(2) != '`' {
        return false;
    }
    let mut i: usize = 3;
    while i < n
        invariant
            3 <= i <= n,
            n == s@.len(),
            s@ == input@,
            s@[0] == '`' && s@[1] == '`' && s@[2] == '`',
            forall|j: int| 3 <= j < i ==> s@[j] != '`' && s@[j] != '.',
        decreases n - i,
    {
        let c = s.get_char(i);
        if c == '`' || c == '.' {
            proof {
                assert(!(s@[i as int] != '`' && s@[i as int] != '.'));
            }
            return false;
        }
        i = i + 1;
    }
    true
}

/// The lines of a code block, each HTML-entity escaped.
pub open spec fn escape_lines(v: Seq<Seq<char>>) -> Seq<Seq<char>> {
    v.map_values(|s: Seq<char>| escape_seq(s))
}

/// Escapes every line of a code block's content.
pub fn parse_code_block(input: Vec<String>) -> (r: Vec<String>)
    ensures
        r.deep_view() == escape_lines(input.deep_view()),
{
    let mut r: Vec<String> = Vec::new();
    let mut i: usize = 0;
    while i < input.len()
        invariant
            i <= input.len(),
            r.deep_view() =~= escape_lines(input.deep_view()).take(i as int),
        decreases input.len() - i,
    {
        let piece = escape_code_string(&input[i]);
        let ghost old_dv = r.deep_view();
        r.push(piece);
        proof {
            assert(r.deep_view() =~= old_dv.push(piece@));
            assert(r.deep_view() =~= escape_lines(input.deep_view()).take(i as int + 1));
        }
        i = i + 1;
    }
    proof {
        assert(escape_lines(input.deep_view()).take(input.len() as int) =~= escape_lines(
            input.deep_view(),
        ));
    }
    r
}

/// A code-block helper that bundles the fence test and the escaping.
pub struct CodeBlock {}

impl CodeBlock {
    /// Builds the helper.
    pub fn new() -> (r: Self)
        ensures
            r == (CodeBlock {  }),
    {
        CodeBlock {  }
    }

    /// Decides whether a line opens or closes a fenced code block.
    pub fn is_code_block_start(&self, input: &String) -> (r: bool)
        ensures
            r == is_fence_spec(input@),
    {
        is_code_block_start(input)
    }

    /// Escapes every line of a code block's content.
    pub fn parse_code_block(&self, input: Vec<String>) -> (r: Vec<String>)
        ensures
            r.deep_view() == escape_lines(input.deep_view()),
    {
        parse_code_block(input)
    }
}

} // verus!
