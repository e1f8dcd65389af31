//! Item bodies are written in Markdown and shown as HTML.
use vstd::prelude::*;

verus! {

/// The HTML that pulldown-cmark renders from a Markdown text, with tables,
/// task lists and smart punctuation enabled.
pub uninterp spec fn markdown_html(src: Seq<char>) -> Seq<char>;

/// Relies on `pulldown_cmark::Parser::new_ext` and `pulldown_cmark::html::push_html`:
/// the HTML rendering of `src`, appended to an empty string.
#[verifier::external_body]
pub fn md(src: &str) -> (r: String)
    ensures
        r@ == markdown_html(src@),
{
    let mut options = pulldown_cmark::Options::empty();
    options.insert(pulldown_cmark::Options::ENABLE_TABLES);
    options.insert(pulldown_cmark::Options::ENABLE_TASKLISTS);
    options.insert(pulldown_cmark::Options::ENABLE_SMART_PUNCTUATION);
    let parser = pulldown_cmark::Parser::new_ext(src, options);
    let mut output = String::new();
    pulldown_cmark::html::push_html(&mut output, parser);
    output
}

} // verus!
