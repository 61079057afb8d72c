//! Atlassian Document Format (ADF): the rich-text tree Jira stores descriptions
//! and comments in, turned into searchable plain text and built from plain text.

use vstd::prelude::*;
use crate::text::{chars_of, chars_eq, is_ws, string_of, trim, trim_chars, trim_end, trim_start};

verus! {

/// One node of an ADF document, as far as text extraction reads it: the
/// `type` and `text` members where they are strings, the `content` member
/// where it is an array, and the document `version` where it is a number.
pub struct AdfNode {
    pub node_type: Option<String>,
    pub text: Option<String>,
    pub content: Option<Vec<AdfNode>>,
    pub version: Option<i64>,
}

/// Whether a node's type is exactly the given name.
pub open spec fn type_is(n: AdfNode, name: Seq<char>) -> bool {
    n.node_type matches Some(t) && t@ == name
}

/// Node types after whose content a line break is written.
pub open spec fn is_block(n: AdfNode) -> bool {
    ||| type_is(n, "paragraph"@)
    ||| type_is(n, "heading"@)
    ||| type_is(n, "listItem"@)
    ||| type_is(n, "codeBlock"@)
}

/// The text a node contributes before trimming: its own text, a line break
/// for a hard break, then its children's text, closed by a line break for
/// a block that has content.
pub open spec fn node_text(n: AdfNode) -> Seq<char>
    decreases n,
{
    let own = match n.text {
        Some(t) => t@,
        None => seq![],
    };
    let brk = if type_is(n, "hardBreak"@) {
        seq!['\n']
    } else {
        seq![]
    };
    let inner = match n.content {
        Some(children) => children_text(children@) + if is_block(n) {
            seq!['\n']
        } else {
            seq![]
        },
        None => seq![],
    };
    own + brk + inner
}

/// The concatenated text of a list of nodes.
pub open spec fn children_text(cs: Seq<AdfNode>) -> Seq<char>
    decreases cs,
{
    if cs.len() == 0 {
        seq![]
    } else {
        children_text(cs.drop_last()) + node_text(cs.last())
    }
}

/// The searchable text of a document: all text, trimmed.
pub open spec fn adf_text(n: AdfNode) -> Seq<char> {
    trim(node_text(n))
}

fn string_is(s: &String, lit: &str) -> (r: bool)
    ensures
        r == (s@ == lit@),
{
    let a = chars_of(s.as_str());
    let b = chars_of(lit);
    chars_eq(&a, &b)
}

fn type_named(n: &AdfNode, lit: &str) -> (r: bool)
    ensures
        r == type_is(*n, lit@),
{
    match &n.node_type {
        Some(t) => string_is(t, lit),
        None => false,
    }
}

fn append_text(n: &AdfNode, out: &mut Vec<char>)
    ensures
        final(out)@ == old(out)@ + node_text(*n),
    decreases n,
{
    let ghost start = out@;
    if let Some(t) = &n.text {
        let cs = chars_of(t.as_str());
        let mut i: usize = 0;
        while i < cs.len()
            invariant
                i <= cs.len(),
                out@ == start + cs@.take(i as int),
            decreases cs.len() - i,
        {
            out.push(cs[i]);
            i = i + 1;
            assert(out@ =~= start + cs@.take(i as int));
        }
        assert(cs@.take(cs.len() as int) =~= cs@);
    }
    let ghost own = match &n.text {
        Some(t) => t@,
        None => Seq::<char>::empty(),
    };
    assert(out@ =~= start + own);
    if type_named(n, "hardBreak") {
        out.push('\n');
    }
    let ghost brk = if type_is(*n, "hardBreak"@) {
        seq!['\n']
    } else {
        Seq::<char>::empty()
    };
    assert(out@ =~= start + own + brk);
    if let Some(children) = &n.content {
        let ghost before = out@;
        let mut i: usize = 0;
        while i < children.len()
            invariant
                i <= children.len(),
                out@ == before + children_text(children@.take(i as int)),
                n.content == Some(*children),
            decreases children.len() - i,
        {
            assert(children@.take(i + 1).drop_last() =~= children@.take(i as int));
            proof {
                assert(n.content == Some(*children));
                assert(decreases_to!(*n => n.content));
                assert(decreases_to!(n.content => n.content->0));
                assert(n.content->0 == *children);
                assert(decreases_to!(*children => children@));
                assert(0 <= i < children@.len());
                assert(decreases_to!(children@ => children@[i as int]));
            }
            append_text(&children[i], out);
            i = i + 1;
        }
        assert(children@.take(children.len() as int) =~= children@);
        if type_named(n, "paragraph") || type_named(n, "heading") || type_named(n, "listItem")
            || type_named(n, "codeBlock") {
            out.push('\n');
        }
    }
    assert(out@ =~= start + node_text(*n));
}

/// The searchable plain text of an ADF document.
pub fn adf_to_text(value: &AdfNode) -> (r: String)
    ensures
        r@ == adf_text(*value),
{
    let mut out: Vec<char> = Vec::new();
    append_text(value, &mut out);
    assert(out@ =~= node_text(*value));
    let t = trim_chars(&out);
    string_of(&t)
}


/// A line without one trailing carriage return.
pub open spec fn strip_cr(l: Seq<char>) -> Seq<char> {
    if l.len() > 0 && l.last() == '\r' {
        l.drop_last()
    } else {
        l
    }
}

/// The lines of a text as `str::lines` yields them, `cur` being the line read so
/// far: lines end at `\n` (a `\r` before it is dropped); a final line ending is
/// optional.
pub open spec fn lines_from(s: Seq<char>, cur: Seq<char>) -> Seq<Seq<char>>
    decreases s.len(),
{
    if s.len() == 0 {
        if cur.len() > 0 {
            seq![cur]
        } else {
            seq![]
        }
    } else if s[0] == '\n' {
        seq![strip_cr(cur)] + lines_from(s.drop_first(), seq![])
    } else {
        lines_from(s.drop_first(), cur.push(s[0]))
    }
}

/// The lines of a text.
pub open spec fn lines(s: Seq<char>) -> Seq<Seq<char>> {
    lines_from(s, seq![])
}

/// `str::lines` on a character vector.
pub fn split_lines(v: &Vec<char>) -> (r: Vec<Vec<char>>)
    ensures
        r@.map_values(|l: Vec<char>| l@) == lines(v@),
{
    let mut out: Vec<Vec<char>> = Vec::new();
    let mut cur: Vec<char> = Vec::new();
    let mut i: usize = 0;
    assert(v@.subrange(0, v.len() as int) =~= v@);
    assert(cur@ =~= Seq::<char>::empty());
    assert(out@.map_values(|l: Vec<char>| l@) + lines(v@) =~= lines(v@));
    while i < v.len()
        invariant
            i <= v.len(),
            lines(v@) == out@.map_values(|l: Vec<char>| l@) + lines_from(
                v@.subrange(i as int, v.len() as int),
                cur@,
            ),
        decreases v.len() - i,
    {
        let ghost rest = v@.subrange(i as int, v.len() as int);
        assert(rest.drop_first() =~= v@.subrange(i + 1, v.len() as int));
        if v[i] == '\n' {
            let ghost before = cur@;
            let n = cur.len();
            if n > 0 && cur[n - 1] == '\r' {
                cur.pop();
                assert(cur@ =~= before.drop_last());
            }
            assert(cur@ == strip_cr(before));
            let ghost line = cur@;
            let ghost old_out = out@;
            out.push(cur);
            assert(out@.map_values(|l: Vec<char>| l@) =~= old_out.map_values(|l: Vec<char>| l@)
                + seq![line]);
            cur = Vec::new();
            assert(cur@ =~= Seq::<char>::empty());
        } else {
            cur.push(v[i]);
        }
        i = i + 1;
    }
    assert(v@.subrange(v.len() as int, v.len() as int) =~= Seq::<char>::empty());
    if cur.len() > 0 {
        let ghost old_out = out@;
        out.push(cur);
        assert(out@.map_values(|l: Vec<char>| l@) =~= old_out.map_values(|l: Vec<char>| l@)
            + seq![cur@]);
    } else {
        assert(out@.map_values(|l: Vec<char>| l@) =~= out@.map_values(|l: Vec<char>| l@)
            + Seq::<Seq<char>>::empty());
    }
    out
}


/// Whether a node is the paragraph written for one line: a bare paragraph for an
/// empty line, else a paragraph holding one text node with the line.
pub open spec fn is_line_paragraph(p: AdfNode, line: Seq<char>) -> bool {
    &&& type_is(p, "paragraph"@)
    &&& p.text is None
    &&& p.version is None
    &&& if line.len() == 0 {
        p.content is None
    } else {
        &&& p.content matches Some(cs)
        &&& cs@.len() == 1
        &&& type_is(cs@[0], "text"@)
        &&& cs@[0].text matches Some(t)
        &&& t@ == line
        &&& cs@[0].content is None
        &&& cs@[0].version is None
    }
}

/// Whether a node is the document written for a plain text: a version 1 `doc`
/// with one paragraph per line.
pub open spec fn is_text_doc(d: AdfNode, text: Seq<char>) -> bool {
    &&& type_is(d, "doc"@)
    &&& d.text is None
    &&& d.version == Some(1i64)
    &&& d.content matches Some(ps)
    &&& ps@.len() == lines(text).len()
    &&& forall|i: int| 0 <= i < ps@.len() ==> is_line_paragraph(#[trigger] ps@[i], lines(text)[i])
}

fn named(lit: &str) -> (r: Option<String>)
    ensures
        r matches Some(s) && s@ == lit@,
{
    Some(lit.to_owned())
}

/// Builds the ADF document Jira expects for a plain-text description: one
/// paragraph per line.
pub fn text_to_adf(text: &str) -> (d: AdfNode)
    ensures
        is_text_doc(d, text@),
{
    let v = chars_of(text);
    let ls = split_lines(&v);
    let ghost lv = lines(text@);
    let mut paragraphs: Vec<AdfNode> = Vec::new();
    let mut i: usize = 0;
    while i < ls.len()
        invariant
            i <= ls.len(),
            ls@.map_values(|l: Vec<char>| l@) == lv,
            paragraphs@.len() == i,
            forall|k: int| 0 <= k < i ==> is_line_paragraph(#[trigger] paragraphs@[k], lv[k]),
        decreases ls.len() - i,
    {
        let line = &ls[i];
        assert(line@ == lv[i as int]);
        let p = if line.len() == 0 {
            AdfNode { node_type: named("paragraph"), text: None, content: None, version: None }
        } else {
            let t = AdfNode {
                node_type: named("text"),
                text: Some(string_of(line)),
                content: None,
                version: None,
            };
            let mut cs: Vec<AdfNode> = Vec::new();
            cs.push(t);
            AdfNode { node_type: named("paragraph"), text: None, content: Some(cs), version: None }
        };
        paragraphs.push(p);
        i = i + 1;
    }
    AdfNode { node_type: named("doc"), text: None, content: Some(paragraphs), version: Some(1) }
}

/// The text one line contributes to a document's text: nothing for an empty
/// line, else the line and a line break.
pub open spec fn line_text(l: Seq<char>) -> Seq<char> {
    if l.len() == 0 {
        seq![]
    } else {
        l.push('\n')
    }
}

/// The text of a list of lines written as paragraphs.
pub open spec fn lines_text(ls: Seq<Seq<char>>) -> Seq<char>
    decreases ls.len(),
{
    if ls.len() == 0 {
        seq![]
    } else {
        lines_text(ls.drop_last()) + line_text(ls.last())
    }
}

proof fn lemma_paragraph_text(p: AdfNode, line: Seq<char>)
    requires
        is_line_paragraph(p, line),
    ensures
        node_text(p) == line_text(line),
{
    reveal_strlit("paragraph");
    reveal_strlit("hardBreak");
    reveal_strlit("text");
    assert("paragraph"@.len() == 9);
    assert("hardBreak"@.len() == 9);
    assert("text"@.len() == 4);
    assert("paragraph"@[0] != "hardBreak"@[0]);
    assert("text"@ != "hardBreak"@);
    assert("paragraph"@ != "hardBreak"@);
    if line.len() > 0 {
        let cs = p.content->0;
        let t = cs@[0];
        assert(node_text(t) =~= line);
        assert(cs@.drop_last() =~= Seq::<AdfNode>::empty());
        assert(children_text(Seq::<AdfNode>::empty()) =~= Seq::<char>::empty());
        assert(cs@.last() == t);
        assert(children_text(cs@) =~= line);
        assert(is_block(p));
        assert(node_text(p) =~= line.push('\n'));
    } else {
        assert(node_text(p) =~= Seq::<char>::empty());
    }
}

/// Reading the text back out of the document `text_to_adf` writes gives each
/// non-empty line followed by a line break, the whole trimmed: so a text of
/// non-empty, untrimmed lines comes back unchanged.
pub proof fn law_adf_roundtrip(doc: AdfNode, text: Seq<char>)
    requires
        is_text_doc(doc, text),
    ensures
        adf_text(doc) == trim(lines_text(lines(text))),
{
    reveal_strlit("doc");
    reveal_strlit("hardBreak");
    reveal_strlit("paragraph");
    reveal_strlit("heading");
    reveal_strlit("listItem");
    reveal_strlit("codeBlock");
    assert("doc"@.len() == 3);
    assert("hardBreak"@.len() == 9);
    assert("paragraph"@.len() == 9);
    assert("heading"@.len() == 7);
    assert("listItem"@.len() == 8);
    assert("codeBlock"@.len() == 9);
    assert("doc"@ != "hardBreak"@);
    assert("doc"@ != "paragraph"@);
    assert("doc"@ != "heading"@);
    assert("doc"@ != "listItem"@);
    assert("doc"@ != "codeBlock"@);
    let ps = doc.content->0;
    let ls = lines(text);
    assert forall|k: int| 0 <= k <= ps@.len() implies children_text(#[trigger] ps@.take(k))
        == lines_text(ls.take(k)) by {
        lemma_prefix_text(ps@, ls, k);
    }
    assert(ps@.take(ps@.len() as int) =~= ps@);
    assert(ls.take(ls.len() as int) =~= ls);
    assert(!is_block(doc));
    assert(node_text(doc) =~= children_text(ps@));
}

proof fn lemma_prefix_text(ps: Seq<AdfNode>, ls: Seq<Seq<char>>, k: int)
    requires
        ps.len() == ls.len(),
        0 <= k <= ps.len(),
        forall|i: int| 0 <= i < ps.len() ==> is_line_paragraph(#[trigger] ps[i], ls[i]),
    ensures
        children_text(ps.take(k)) == lines_text(ls.take(k)),
    decreases k,
{
    if k > 0 {
        lemma_prefix_text(ps, ls, k - 1);
        assert(ps.take(k).drop_last() =~= ps.take(k - 1));
        assert(ls.take(k).drop_last() =~= ls.take(k - 1));
        lemma_paragraph_text(ps[k - 1], ls[k - 1]);
    } else {
        assert(ps.take(0) =~= Seq::<AdfNode>::empty());
        assert(ls.take(0) =~= Seq::<Seq<char>>::empty());
    }
}

/// Whether a text has no carriage return and no two line breaks in a row,
/// so that each of its lines is non-empty.
pub open spec fn plain_lines(t: Seq<char>) -> bool {
    &&& forall|i: int| 0 <= i < t.len() ==> #[trigger] t[i] != '\r'
    &&& forall|i: int| 0 <= i < t.len() - 1 ==> !(#[trigger] t[i] == '\n' && t[i + 1] == '\n')
}

proof fn lemma_lines_text_append(a: Seq<Seq<char>>, b: Seq<Seq<char>>)
    ensures
        lines_text(a + b) == lines_text(a) + lines_text(b),
    decreases b.len(),
{
    if b.len() == 0 {
        assert(a + b =~= a);
        assert(lines_text(a) + Seq::<char>::empty() =~= lines_text(a));
    } else {
        assert((a + b).drop_last() =~= a + b.drop_last());
        lemma_lines_text_append(a, b.drop_last());
        assert(lines_text(a) + lines_text(b.drop_last()) + line_text(b.last()) =~= lines_text(a) + (
        lines_text(b.drop_last()) + line_text(b.last())));
    }
}

proof fn lemma_lines_text_one(l: Seq<char>)
    ensures
        lines_text(seq![l]) == line_text(l),
{
    let one = seq![l];
    assert(one.len() == 1 && one.last() == l);
    assert(one.drop_last() =~= Seq::<Seq<char>>::empty());
    assert(lines_text(one.drop_last()) == Seq::<char>::empty());
    assert(lines_text(one) == lines_text(one.drop_last()) + line_text(one.last()));
    assert(Seq::<char>::empty() + line_text(l) =~= line_text(l));
}

proof fn lemma_lines_from_text(s: Seq<char>, cur: Seq<char>)
    requires
        (cur + s).len() > 0,
        (cur + s)[0] != '\n',
        (cur + s).last() != '\n',
        plain_lines(cur + s),
    ensures
        lines_text(lines_from(s, cur)) == cur + s + seq!['\n'],
    decreases s.len(),
{
    let w = cur + s;
    if s.len() == 0 {
        assert(w =~= cur);
        lemma_lines_text_one(cur);
        assert(cur.push('\n') =~= cur + s + seq!['\n']);
    } else if s[0] == '\n' {
        assert(w[cur.len() as int] == '\n');
        assert(cur.len() > 0);
        assert(cur.last() == w[cur.len() - 1]);
        assert(strip_cr(cur) == cur);
        let s1 = s.drop_first();
        assert(s1.len() > 0) by {
            if s1.len() == 0 {
                assert(w.last() == s[0]);
            }
        }
        assert(s1[0] == w[cur.len() as int + 1]);
        assert(!(w[cur.len() as int] == '\n' && w[cur.len() as int + 1] == '\n'));
        assert(Seq::<char>::empty() + s1 =~= s1);
        assert forall|i: int| 0 <= i < s1.len() implies #[trigger] s1[i] != '\r' by {
            assert(s1[i] == w[cur.len() + 1 + i]);
        }
        assert forall|i: int| 0 <= i < s1.len() - 1 implies !(#[trigger] s1[i] == '\n' && s1[i + 1] == '\n') by {
            assert(s1[i] == w[cur.len() + 1 + i]);
            assert(s1[i + 1] == w[cur.len() + 2 + i]);
        }
        assert(s1.last() == w.last());
        lemma_lines_from_text(s1, seq![]);
        lemma_lines_text_append(seq![strip_cr(cur)], lines_from(s1, seq![]));
        lemma_lines_text_one(cur);
        assert(cur.push('\n') + (s1 + seq!['\n']) =~= cur + s + seq!['\n']);
    } else {
        assert(cur.push(s[0]) + s.drop_first() =~= w);
        lemma_lines_from_text(s.drop_first(), cur.push(s[0]));
    }
}

proof fn lemma_trim_start_shape(s: Seq<char>)
    ensures
        trim_start(s).len() <= s.len(),
        trim_start(s).len() > 0 ==> trim_start(s).last() == s.last(),
        s.len() > 0 && is_ws(s[0]) ==> trim_start(s).len() < s.len(),
    decreases s.len(),
{
    if s.len() > 0 && is_ws(s[0]) {
        lemma_trim_start_shape(s.drop_first());
    }
}

proof fn lemma_trim_end_shape(s: Seq<char>)
    ensures
        trim_end(s).len() <= s.len(),
        s.len() > 0 && is_ws(s.last()) ==> trim_end(s).len() < s.len(),
    decreases s.len(),
{
    if s.len() > 0 && is_ws(s.last()) {
        lemma_trim_end_shape(s.drop_last());
    }
}

/// A trimmed, non-empty text begins and ends with a character that is not
/// whitespace.
proof fn lemma_trimmed_ends(t: Seq<char>)
    requires
        trim(t) == t,
        t.len() > 0,
    ensures
        !is_ws(t[0]),
        !is_ws(t.last()),
{
    lemma_trim_start_shape(t);
    lemma_trim_end_shape(trim_start(t));
    if is_ws(t.last()) {
        if trim_start(t).len() > 0 {
            assert(is_ws(trim_start(t).last()));
        }
    }
}

/// A trimmed text without carriage returns or blank lines comes back
/// unchanged from the document `text_to_adf` writes.
pub proof fn law_adf_text_roundtrip(doc: AdfNode, text: Seq<char>)
    requires
        is_text_doc(doc, text),
        trim(text) == text,
        plain_lines(text),
    ensures
        adf_text(doc) == text,
{
    law_adf_roundtrip(doc, text);
    if text.len() == 0 {
        assert(lines(text) =~= Seq::<Seq<char>>::empty());
        assert(trim(Seq::<char>::empty()) =~= Seq::<char>::empty());
    } else {
        lemma_trimmed_ends(text);
        assert(Seq::<char>::empty() + text =~= text);
        lemma_lines_from_text(text, seq![]);
        let u = text + seq!['\n'];
        assert(u[0] == text[0]);
        assert(trim_start(u) == u);
        assert(u.drop_last() =~= text);
        assert(trim_end(text) == text);
        assert(trim_end(u) == text);
    }
}

/// A heading, a list item and a code block end their content with a line
/// break exactly as a paragraph does, so blocks never run into each other.
pub proof fn law_blocks_end_in_line_breaks(n: AdfNode)
    requires
        n.text is None,
        n.content is Some,
        ({
            ||| type_is(n, "paragraph"@)
            ||| type_is(n, "heading"@)
            ||| type_is(n, "listItem"@)
            ||| type_is(n, "codeBlock"@)
        }),
    ensures
        node_text(n) == children_text(n.content->0@) + seq!['\n'],
{
    reveal_strlit("hardBreak");
    reveal_strlit("paragraph");
    reveal_strlit("heading");
    reveal_strlit("listItem");
    reveal_strlit("codeBlock");
    assert("paragraph"@[0] != "hardBreak"@[0]);
    assert("heading"@.len() != "hardBreak"@.len());
    assert("listItem"@.len() != "hardBreak"@.len());
    assert("codeBlock"@[0] != "hardBreak"@[0]);
    assert(!type_is(n, "hardBreak"@));
    assert(node_text(n) =~= children_text(n.content->0@) + seq!['\n']);
}

/// A text node contributes its text as it stands, and a hard break with
/// nothing in it a line break.
pub proof fn law_text_and_breaks(n: AdfNode)
    requires
        n.content is None,
    ensures
        n.text is Some && !type_is(n, "hardBreak"@) ==> node_text(n) == n.text->0@,
        n.text is None && type_is(n, "hardBreak"@) ==> node_text(n) == seq!['\n'],
        n.text is None && !type_is(n, "hardBreak"@) ==> node_text(n).len() == 0,
{
    if let Some(t) = n.text {
        if !type_is(n, "hardBreak"@) {
            assert(node_text(n) =~= t@);
        }
    } else {
        if type_is(n, "hardBreak"@) {
            assert(node_text(n) =~= seq!['\n']);
        }
    }
}

} // verus!
