//! Document body extraction for display.

use vstd::prelude::*;

use crate::text::{chars_of, find_char_from, find_from, find_seq_from, string_from_chars, sub_vec};

verus! {

/// The content of the first `<body …>` element: the text after the `>`
/// that closes the first `<body` up to the next `</body>`; the whole
/// document when either is missing.
pub open spec fn spec_extract_body(s: Seq<char>) -> Seq<char> {
    let b = find_seq_from(s, 0, seq!['<', 'b', 'o', 'd', 'y']);
    if b < 0 {
        s
    } else {
        let g = find_seq_from(s, b, seq!['>']);
        if g < 0 {
            s
        } else {
            let e = find_seq_from(s, g + 1, seq!['<', '/', 'b', 'o', 'd', 'y', '>']);
            if e < 0 {
                s
            } else {
                s.subrange(g + 1, e)
            }
        }
    }
}

proof fn lemma_find_one(s: Seq<char>, from: int, c: char)
    requires
        0 <= from <= s.len(),
    ensures
        find_seq_from(s, from, seq![c]) >= 0 ==> {
            &&& from <= find_seq_from(s, from, seq![c]) < s.len()
            &&& s[find_seq_from(s, from, seq![c])] == c
            &&& forall|j: int| from <= j < find_seq_from(s, from, seq![c]) ==> s[j] != c
        },
        find_seq_from(s, from, seq![c]) < 0 ==> forall|j: int| from <= j < s.len() ==> s[j] != c,
    decreases s.len() - from,
{
    if from < s.len() {
        if s.subrange(from, from + 1) == seq![c] {
            assert(s.subrange(from, from + 1)[0] == s[from]);
        } else {
            assert(s[from] != c) by {
                if s[from] == c {
                    assert(s.subrange(from, from + 1) =~= seq![c]);
                }
            }
            lemma_find_one(s, from + 1, c);
        }
    }
}

proof fn lemma_find_ge(s: Seq<char>, from: int, pat: Seq<char>)
    ensures
        find_seq_from(s, from, pat) >= 0 ==> find_seq_from(s, from, pat) >= from,
    decreases s.len() + 1 - from,
{
    if !(from < 0 || from > s.len() || from + pat.len() > s.len()) && s.subrange(from, from + pat.len()) != pat {
        lemma_find_ge(s, from + 1, pat);
    }
}

/// Extract body content from HTML
pub fn extract_body(html: &str) -> (r: String)
    ensures
        r@ == spec_extract_body(html@),
{
    let s = chars_of(html);
    let n = s.len();
    let open = chars_of("<body");
    let close = chars_of("</body>");
    proof {
        reveal_strlit("<body");
        reveal_strlit("</body>");
        assert(open@ =~= seq!['<', 'b', 'o', 'd', 'y']);
        assert(close@ =~= seq!['<', '/', 'b', 'o', 'd', 'y', '>']);
    }
    if let Some(start) = find_from(&s, 0, &open) {
        proof {
            lemma_find_one(s@, start as int, '>');
        }
        if let Some(end_tag) = find_char_from(&s, start, '>') {
            let body_start = end_tag + 1;
            proof {
                lemma_find_ge(s@, body_start as int, close@);
            }
            if let Some(body_end) = find_from(&s, body_start, &close) {
                let body = sub_vec(&s, body_start, body_end);
                return string_from_chars(body.as_slice());
            }
        }
    }
    string_from_chars(s.as_slice())
}

} // verus!
