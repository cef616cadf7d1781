//! Rendering a post body: markdown to HTML, and the word-count column.
//!
//! Reading the markdown file and writing the generated HTML are the
//! caller's business; this module holds the computation between the two.

use vstd::prelude::*;
use vstd::string::StrSliceExecFns;
use vstd::string::StringExecFns;

verus! {

/// What the renderer makes of a markdown text: its HTML.
pub uninterp spec fn html_of(md: Seq<char>) -> Seq<char>;

/// Relies on markdown::to_html: a pure CommonMark renderer (default
/// options, never failing) whose output depends on the input text alone.
#[verifier::external_body]
fn to_html(md: &str) -> (r: String)
    ensures
        r@ == html_of(md@),
{
    markdown::to_html(md)
}

/// The characters counted as markdown markup (or spacing) and stripped
/// before the text is measured.
pub open spec fn is_md_symbol(c: char) -> bool {
    ||| c == '*'
    ||| c == '#'
    ||| c == '_'
    ||| c == '>'
    ||| c == '['
    ||| c == ']'
    ||| c == '('
    ||| c == ')'
    ||| c == '`'
    ||| c == '!'
    ||| c == '&'
    ||| c == '|'
    ||| c == '-'
    ||| c == '+'
    ||| c == '='
    ||| c == ' '
    ||| c == '\n'
    ||| c == '\r'
}

/// A text with its markdown symbols stripped.
pub open spec fn cleaned_text(s: Seq<char>) -> Seq<char> {
    s.filter(|c: char| !is_md_symbol(c))
}

fn is_md_symbol_exec(c: char) -> (b: bool)
    ensures
        b == is_md_symbol(c),
{
    c == '*' || c == '#' || c == '_' || c == '>' || c == '[' || c == ']' || c == '(' || c == ')'
        || c == '`' || c == '!' || c == '&' || c == '|' || c == '-' || c == '+' || c == '=' || c
        == ' ' || c == '\n' || c == '\r'
}

proof fn lemma_filter_snoc_chars(s: Seq<char>, x: char, pred: spec_fn(char) -> bool)
    ensures
        s.push(x).filter(pred) == s.filter(pred) + (if pred(x) {
            seq![x]
        } else {
            Seq::<char>::empty()
        }),
{
    reveal(Seq::filter);
    assert(s.push(x).drop_last() =~= s);
    if pred(x) {
        assert(s.push(x).filter(pred) =~= s.filter(pred) + seq![x]);
    } else {
        assert(s.push(x).filter(pred) =~= s.filter(pred) + Seq::<char>::empty());
    }
}

/// Strip the markdown symbols from a text.
#[verifier::loop_isolation(false)]
pub fn clean_markdown(text: &str) -> (r: String)
    ensures
        r@ == cleaned_text(text@),
{
    let ghost pred = |c: char| !is_md_symbol(c);
    let n = text.unicode_len();
    let mut out = String::new();
    let mut i: usize = 0;
    proof {
        assert(text@.take(0).filter(pred) =~= Seq::<char>::empty());
    }
    while i < n
        invariant
            0 <= i <= n,
            out@ == text@.take(i as int).filter(pred),
        decreases n - i,
    {
        let c = text.get_char(i);
        proof {
            assert(text@.take(i + 1) =~= text@.take(i as int).push(c));
            lemma_filter_snoc_chars(text@.take(i as int), c, pred);
        }
        if !is_md_symbol_exec(c) {
            let piece = text.substring_char(i, i + 1);
            proof {
                assert(piece@ =~= seq![c]);
            }
            out.append(piece);
        }
        i += 1;
    }
    proof {
        assert(text@.take(n as int) =~= text@);
    }
    out
}

/// Render a post body: the HTML of the markdown text, and the character
/// count of the text with the markdown symbols stripped — the value
/// stored in the row's `words_len` column.
pub fn render_post_body(md: &str) -> (r: (String, i32))
    requires
        md@.len() <= i32::MAX,
    ensures
        r.0@ == html_of(md@),
        r.1 as int == cleaned_text(md@).len(),
{
    let html = to_html(md);
    let cleaned = clean_markdown(md);
    proof {
        md@.lemma_filter_len(|c: char| !is_md_symbol(c));
    }
    let n = cleaned.as_str().unicode_len();
    (html, n as i32)
}

} // verus!
