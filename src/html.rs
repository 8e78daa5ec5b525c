//! Reduction of an HTML body to readable text.
use vstd::prelude::*;
use crate::text::{
    chars_of, find_from, find_from_exec, lemma_find_from_props, push_range,
    replace_all, replaced, string_of, trim, trim_vec,
};

verus! {

/// Every block from an `open` marker to the next `close` marker after it
/// removed, searching again from the start after each removal; a block
/// whose close marker is missing runs to the end.
pub open spec fn remove_blocks(s: Seq<char>, open: Seq<char>, close: Seq<char>, fold: bool) -> Seq<
    char,
>
    decreases s.len(),
{
    match find_from(s, open, 0, fold) {
        None => s,
        Some(i) => match find_from(s.subrange(i, s.len() as int), close, 0, fold) {
            None => s.subrange(0, i),
            Some(j) => if close.len() > 0 && 0 <= i && 0 <= j && i + j + close.len() <= s.len() {
                remove_blocks(
                    s.subrange(0, i) + s.subrange(i + j + close.len(), s.len() as int),
                    open,
                    close,
                    fold,
                )
            } else {
                s
            },
        },
    }
}

/// Head, style and script elements and comments removed.
pub open spec fn without_blocks(s: Seq<char>) -> Seq<char> {
    let a = remove_blocks(s, "<head"@, "</head>"@, true);
    let b = remove_blocks(a, "<style"@, "</style>"@, true);
    let c = remove_blocks(b, "<script"@, "</script>"@, true);
    remove_blocks(c, "<!--"@, "-->"@, false)
}

/// Line and paragraph breaks turned into newlines.
pub open spec fn with_breaks(s: Seq<char>) -> Seq<char> {
    let a = replaced(s, "<br>"@, "\n"@);
    let b = replaced(a, "<br/>"@, "\n"@);
    let c = replaced(b, "<br />"@, "\n"@);
    let d = replaced(c, "<p>"@, "\n\n"@);
    replaced(d, "</p>"@, "\n\n"@)
}

/// The characters outside `<...>`: `<` opens a tag, `>` closes it.
pub open spec fn untagged(s: Seq<char>, in_tag: bool) -> Seq<char>
    decreases s.len(),
{
    if s.len() == 0 {
        Seq::empty()
    } else if s[0] == '<' {
        untagged(s.drop_first(), true)
    } else if s[0] == '>' {
        untagged(s.drop_first(), false)
    } else if !in_tag {
        seq![s[0]] + untagged(s.drop_first(), false)
    } else {
        untagged(s.drop_first(), true)
    }
}

/// The five entities `&nbsp; &lt; &gt; &amp; &quot;` replaced, in that order.
pub open spec fn unescaped(s: Seq<char>) -> Seq<char> {
    let a = replaced(s, "&nbsp;"@, " "@);
    let b = replaced(a, "&lt;"@, "<"@);
    let c = replaced(b, "&gt;"@, ">"@);
    let d = replaced(c, "&amp;"@, "&"@);
    replaced(d, "&quot;"@, "\""@)
}

/// The readable text of an HTML body.
pub open spec fn stripped_html(s: Seq<char>) -> Seq<char> {
    trim(unescaped(untagged(with_breaks(without_blocks(s)), false)))
}

fn remove_blocks_exec(s: Vec<char>, open: &str, close: &str, fold: bool) -> (r: Vec<char>)
    ensures
        r@ == remove_blocks(s@, open@, close@, fold),
{
    let open_v = chars_of(open);
    let close_v = chars_of(close);
    let mut cur = s;
    loop
        invariant
            open_v@ == open@,
            close_v@ == close@,
            remove_blocks(s@, open@, close@, fold) == remove_blocks(cur@, open@, close@, fold),
        decreases cur@.len(),
    {
        match find_from_exec(&cur, &open_v, 0, fold) {
            None => {
                return cur;
            },
            Some(i) => {
                proof {
                    lemma_find_from_props(cur@, open@, 0, fold);
                }
                let mut tail: Vec<char> = Vec::new();
                push_range(&mut tail, &cur, i, cur.len());
                match find_from_exec(&tail, &close_v, 0, fold) {
                    None => {
                        let mut head: Vec<char> = Vec::new();
                        push_range(&mut head, &cur, 0, i);
                        return head;
                    },
                    Some(j) => {
                        proof {
                            lemma_find_from_props(tail@, close@, 0, fold);
                        }
                        if close_v.len() == 0 {
                            return cur;
                        }
                        let mut next: Vec<char> = Vec::new();
                        push_range(&mut next, &cur, 0, i);
                        push_range(&mut next, &cur, i + j + close_v.len(), cur.len());
                        cur = next;
                    },
                }
            },
        }
    }
}

fn untagged_exec(s: &Vec<char>) -> (r: Vec<char>)
    ensures
        r@ == untagged(s@, false),
{
    let mut out: Vec<char> = Vec::new();
    let mut in_tag = false;
    let n = s.len();
    let mut i: usize = 0;
    assert(s@.subrange(0, n as int) =~= s@);
    while i < n
        invariant
            i <= n == s@.len(),
            untagged(s@, false) == out@ + untagged(s@.subrange(i as int, n as int), in_tag),
        decreases n - i,
    {
        let ghost t = s@.subrange(i as int, n as int);
        assert(t.drop_first() =~= s@.subrange(i + 1, n as int));
        let c = s[i];
        if c == '<' {
            in_tag = true;
        } else if c == '>' {
            in_tag = false;
        } else if !in_tag {
            let ghost before = out@;
            out.push(c);
            assert(before + (seq![c] + untagged(t.drop_first(), false)) =~= out@ + untagged(
                t.drop_first(),
                false,
            ));
        }
        i = i + 1;
    }
    assert(untagged(s@.subrange(n as int, n as int), in_tag) =~= Seq::<char>::empty());
    assert(out@ + Seq::<char>::empty() =~= out@);
    out
}

fn replace_str(s: &Vec<char>, p: &str, r: &str) -> (out: Vec<char>)
    ensures
        out@ == replaced(s@, p@, r@),
{
    let pv = chars_of(p);
    let rv = chars_of(r);
    replace_all(s, pv.as_slice(), rv.as_slice())
}

/// Reduces an HTML body to its text: drops head, style and script elements
/// (tag names matched without regard to ASCII case) and comments, turns
/// `<br>`, `<p>` and `</p>` into newlines, drops every remaining tag,
/// decodes five common entities and trims the result.
pub fn strip_html_tags(html: &str) -> (r: String)
    ensures
        r@ == stripped_html(html@),
{
    let s = chars_of(html);
    let s = remove_blocks_exec(s, "<head", "</head>", true);
    let s = remove_blocks_exec(s, "<style", "</style>", true);
    let s = remove_blocks_exec(s, "<script", "</script>", true);
    let s = remove_blocks_exec(s, "<!--", "-->", false);
    let s = replace_str(&s, "<br>", "\n");
    let s = replace_str(&s, "<br/>", "\n");
    let s = replace_str(&s, "<br />", "\n");
    let s = replace_str(&s, "<p>", "\n\n");
    let s = replace_str(&s, "</p>", "\n\n");
    let s = untagged_exec(&s);
    let s = replace_str(&s, "&nbsp;", " ");
    let s = replace_str(&s, "&lt;", "<");
    let s = replace_str(&s, "&gt;", ">");
    let s = replace_str(&s, "&amp;", "&");
    let s = replace_str(&s, "&quot;", "\"");
    let s = trim_vec(&s);
    string_of(s.as_slice())
}

} // verus!
