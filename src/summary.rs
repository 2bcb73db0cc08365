use vstd::prelude::*;

verus! {

/// The most characters a description holds.
pub const DESCRIPTION_LIMIT: usize = 200;

/// A blank line starts at `j`: two line feeds in a row.
pub open spec fn is_paragraph_break(s: Seq<char>, j: int) -> bool {
    0 <= j && j + 1 < s.len() && s[j] == '\n' && s[j + 1] == '\n'
}

/// The description of `s` is its first `e` characters: the first paragraph,
/// cut at the limit.
pub open spec fn is_summary_end(s: Seq<char>, e: int) -> bool {
    &&& 0 <= e <= s.len()
    &&& e <= DESCRIPTION_LIMIT
    &&& forall|j: int| 0 <= j < e ==> !#[trigger] is_paragraph_break(s, j)
    &&& e == s.len() || e == DESCRIPTION_LIMIT || is_paragraph_break(s, e)
}

/// One length at most meets `is_summary_end`.
pub proof fn lemma_summary_end_unique(s: Seq<char>, e1: int, e2: int)
    requires
        is_summary_end(s, e1),
        is_summary_end(s, e2),
    ensures
        e1 == e2,
{
    if e1 < e2 {
        assert(!is_paragraph_break(s, e1));
    } else if e2 < e1 {
        assert(!is_paragraph_break(s, e2));
    }
}

/// A plain description of a markdown text for a page's meta tag: its first
/// paragraph, at most `DESCRIPTION_LIMIT` characters of it.
pub fn extract_description(markdown: &str) -> (r: String)
    ensures
        is_summary_end(markdown@, r@.len() as int),
        r@ == markdown@.subrange(0, r@.len() as int),
{
    let len = markdown.unicode_len();
    let mut i: usize = 0;
    while i < len && i < DESCRIPTION_LIMIT
        invariant
            len == markdown@.len(),
            i <= len,
            i <= DESCRIPTION_LIMIT,
            forall|j: int| 0 <= j < i ==> !#[trigger] is_paragraph_break(markdown@, j),
        ensures
            i <= len,
            i <= DESCRIPTION_LIMIT,
            forall|j: int| 0 <= j < i ==> !#[trigger] is_paragraph_break(markdown@, j),
            i == len || i == DESCRIPTION_LIMIT || is_paragraph_break(markdown@, i as int),
        decreases len - i,
    {
        if i + 1 < len && markdown.get_char(i) == '\n' && markdown.get_char(i + 1) == '\n' {
            break;
        }
        i = i + 1;
    }
    let head = markdown.substring_char(0, i);
    String::from_str(head)
}

} // verus!
