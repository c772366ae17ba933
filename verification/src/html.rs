//! A tree model of parsed HTML and the text-extraction rules over it:
//! prefer semantic main-content containers, fall back to the body and then
//! to the root, skip noise tags entirely, collapse whitespace, and strip a
//! fixed list of boilerplate phrases.

use vstd::prelude::*;
use vstd::string::StringExecFns;
use crate::text::{trim_spec, trim_chars, words_of, split_words, str_chars, string_from_chars};

verus! {

/// One node of a parsed page: a text fragment, or an element with its tag
/// name, attributes and children.
pub enum HtmlNode {
    Text(String),
    Element { tag: String, attrs: Vec<(String, String)>, children: Vec<HtmlNode> },
}

/// The nesting depth of a node; the termination measure for tree walks.
pub open spec fn node_height(n: HtmlNode) -> nat
    decreases n,
{
    match n {
        HtmlNode::Text(t) => 0,
        HtmlNode::Element { tag, attrs, children } => nodes_height(children@) + 1,
    }
}

pub open spec fn nodes_height(ns: Seq<HtmlNode>) -> nat
    decreases ns,
{
    if ns.len() == 0 {
        0
    } else if node_height(ns.last()) > nodes_height(ns.drop_last()) {
        node_height(ns.last())
    } else {
        nodes_height(ns.drop_last())
    }
}

/// Every node of a list sits within the list's height.
pub proof fn lemma_nodes_height(ns: Seq<HtmlNode>, i: int)
    requires
        0 <= i < ns.len(),
    ensures
        node_height(ns[i]) <= nodes_height(ns),
    decreases ns,
{
    if i == ns.len() - 1 {
    } else {
        assert(ns.drop_last()[i] == ns[i]);
        lemma_nodes_height(ns.drop_last(), i);
    }
}

/// Tags whose whole subtree carries no readable text.
pub open spec fn is_noise_tag(t: Seq<char>) -> bool {
    ||| t == "script"@
    ||| t == "style"@
    ||| t == "nav"@
    ||| t == "footer"@
    ||| t == "aside"@
    ||| t == "noscript"@
    ||| t == "meta"@
    ||| t == "link"@
    ||| t == "head"@
}

fn is_noise_tag_exec(t: &String) -> (r: bool)
    ensures
        r == is_noise_tag(t@),
{
    *t == String::from_str("script") || *t == String::from_str("style") || *t == String::from_str(
        "nav",
    ) || *t == String::from_str("footer") || *t == String::from_str("aside") || *t
        == String::from_str("noscript") || *t == String::from_str("meta") || *t
        == String::from_str("link") || *t == String::from_str("head")
}

/// The trimmed text fragments below a node, in document order; noise
/// subtrees contribute nothing, and a noise element's children are never
/// visited.
pub open spec fn text_parts_node(n: HtmlNode) -> Seq<Seq<char>>
    decreases n,
{
    match n {
        HtmlNode::Text(t) => if trim_spec(t@).len() > 0 {
            seq![trim_spec(t@)]
        } else {
            Seq::empty()
        },
        HtmlNode::Element { tag, attrs, children } => if is_noise_tag(tag@) {
            Seq::empty()
        } else {
            text_parts_nodes(children@)
        },
    }
}

pub open spec fn text_parts_nodes(ns: Seq<HtmlNode>) -> Seq<Seq<char>>
    decreases ns,
{
    if ns.len() == 0 {
        Seq::empty()
    } else {
        text_parts_nodes(ns.drop_last()) + text_parts_node(ns.last())
    }
}

/// Fragments joined by single spaces.
pub open spec fn join_space(parts: Seq<Seq<char>>) -> Seq<char>
    decreases parts.len(),
{
    if parts.len() == 0 {
        Seq::empty()
    } else if parts.len() == 1 {
        parts[0]
    } else {
        parts[0] + seq![' '] + join_space(parts.drop_first())
    }
}

/// The readable text of an element: its descendants' trimmed fragments
/// joined by spaces.
pub open spec fn element_text(n: HtmlNode) -> Seq<char> {
    match n {
        HtmlNode::Text(t) => join_space(text_parts_node(n)),
        HtmlNode::Element { tag, attrs, children } => join_space(text_parts_nodes(children@)),
    }
}

/// Whether some node of the list, or a descendant of one, is a noise
/// element.
pub open spec fn any_noise_node(ns: Seq<HtmlNode>) -> bool
    decreases ns,
{
    if ns.len() == 0 {
        false
    } else {
        any_noise_node(ns.drop_last()) || noise_in_node(ns.last())
    }
}

pub open spec fn noise_in_node(n: HtmlNode) -> bool
    decreases n,
{
    match n {
        HtmlNode::Text(t) => false,
        HtmlNode::Element { tag, attrs, children } => is_noise_tag(tag@) || any_noise_node(
            children@,
        ),
    }
}

/// The attribute list as a map-like sequence of character views.
pub open spec fn attrs_model(attrs: Seq<(String, String)>) -> Seq<(Seq<char>, Seq<char>)> {
    attrs.map_values(|p: (String, String)| (p.0@, p.1@))
}

/// The value of the first attribute with the given name, if any.
pub open spec fn attr_of(attrs: Seq<(Seq<char>, Seq<char>)>, name: Seq<char>) -> Option<Seq<char>>
    decreases attrs.len(),
{
    if attrs.len() == 0 {
        None
    } else if attrs[0].0 == name {
        Some(attrs[0].1)
    } else {
        attr_of(attrs.drop_first(), name)
    }
}

/// The first attribute value for `name`, if any.
fn find_attr<'a>(attrs: &'a Vec<(String, String)>, name: &str) -> (r: Option<&'a String>)
    ensures
        match r {
            Some(v) => attr_of(attrs_model(attrs@), name@) == Some(v@),
            None => attr_of(attrs_model(attrs@), name@) is None,
        },
{
    proof {
        assert(attrs_model(attrs@).subrange(0, attrs@.len() as int) =~= attrs_model(attrs@));
    }
    let mut i: usize = 0;
    while i < attrs.len()
        invariant
            i <= attrs@.len(),
            attr_of(attrs_model(attrs@), name@) == attr_of(
                attrs_model(attrs@).subrange(i as int, attrs@.len() as int),
                name@,
            ),
        decreases attrs@.len() - i,
    {
        let ghost rest = attrs_model(attrs@).subrange(i as int, attrs@.len() as int);
        proof {
            assert(rest[0] == (attrs@[i as int].0@, attrs@[i as int].1@));
            assert(rest.drop_first() =~= attrs_model(attrs@).subrange(
                i + 1 as int,
                attrs@.len() as int,
            ));
        }
        if attrs[i].0.as_str().unicode_len() == name.unicode_len() && attrs[i].0
            == String::from_str(name) {
            return Some(&attrs[i].1);
        }
        i += 1;
    }
    proof {
        assert(attrs_model(attrs@).subrange(attrs@.len() as int, attrs@.len() as int)
            =~= Seq::<(Seq<char>, Seq<char>)>::empty());
    }
    None
}

/// A space-separated class list contains the given class name.
pub open spec fn class_list_has(val: Seq<char>, cls: Seq<char>) -> bool {
    words_of(val).contains(cls)
}

/// Whether an element carries the given class.
fn has_class(attrs: &Vec<(String, String)>, cls: &str) -> (r: bool)
    ensures
        r == match attr_of(attrs_model(attrs@), "class"@) {
            Some(v) => class_list_has(v, cls@),
            None => false,
        },
{
    let found = find_attr(attrs, "class");
    match found {
        None => false,
        Some(v) => {
            proof {
                assert(attr_of(attrs_model(attrs@), "class"@) == Some(v@));
            }
            let chars = str_chars(v.as_str());
            let words = split_words(&chars);
            let mut i: usize = 0;
            while i < words.len()
                invariant
                    i <= words@.len(),
                    attr_of(attrs_model(attrs@), "class"@) == Some(v@),
                    words.deep_view() == words_of(v@),
                    forall|j: int| 0 <= j < i ==> words.deep_view()[j] != cls@,
                decreases words@.len() - i,
            {
                proof {
                    assert(words@[i as int].deep_view() =~= words@[i as int]@);
                    assert(words.deep_view()[i as int] == words@[i as int]@);
                }
                if words[i].len() == cls.unicode_len() && string_from_chars(&words[i])
                    == String::from_str(cls) {
                    proof {
                        assert(words_of(v@)[i as int] == cls@);
                        assert(words_of(v@).contains(cls@));
                        assert(class_list_has(v@, cls@));
                    }
                    return true;
                }
                i += 1;
            }
            proof {
                if words_of(v@).contains(cls@) {
                    let j = choose|j: int|
                        0 <= j < words_of(v@).len() && words_of(v@)[j] == cls@;
                    assert(words.deep_view()[j] != cls@);
                }
            }
            false
        },
    }
}

/// The main-content container shapes, tried in this order.
pub open spec fn matches_content_selector(
    tag: Seq<char>,
    attrs: Seq<(Seq<char>, Seq<char>)>,
    which: int,
) -> bool {
    if which == 0 {
        tag == "main"@
    } else if which == 1 {
        tag == "article"@
    } else if which == 2 {
        attr_of(attrs, "class"@) matches Some(v) && class_list_has(v, "content"@)
    } else if which == 3 {
        attr_of(attrs, "id"@) == Some("content"@)
    } else if which == 4 {
        attr_of(attrs, "class"@) matches Some(v) && class_list_has(v, "post"@)
    } else if which == 5 {
        attr_of(attrs, "class"@) matches Some(v) && class_list_has(v, "entry-content"@)
    } else if which == 6 {
        attr_of(attrs, "role"@) == Some("main"@)
    } else if which == 7 {
        attr_of(attrs, "class"@) matches Some(v) && class_list_has(v, "main-content"@)
    } else {
        false
    }
}

fn matches_content_selector_exec(tag: &String, attrs: &Vec<(String, String)>, which: usize) -> (r:
    bool)
    requires
        which < 8,
    ensures
        r == matches_content_selector(tag@, attrs_model(attrs@), which as int),
{
    if which == 0 {
        *tag == String::from_str("main")
    } else if which == 1 {
        *tag == String::from_str("article")
    } else if which == 2 {
        has_class(attrs, "content")
    } else if which == 3 {
        match find_attr(attrs, "id") {
            Some(v) => *v == String::from_str("content"),
            None => false,
        }
    } else if which == 4 {
        has_class(attrs, "post")
    } else if which == 5 {
        has_class(attrs, "entry-content")
    } else if which == 6 {
        match find_attr(attrs, "role") {
            Some(v) => *v == String::from_str("main"),
            None => false,
        }
    } else {
        has_class(attrs, "main-content")
    }
}

/// The texts of the elements matching one content selector, in document
/// order, skipping elements that contain noise tags and texts that trim to
/// nothing.
pub open spec fn content_parts_node(n: HtmlNode, which: int) -> Seq<Seq<char>>
    decreases n,
{
    match n {
        HtmlNode::Text(t) => Seq::empty(),
        HtmlNode::Element { tag, attrs, children } => {
            let own: Seq<Seq<char>> = if matches_content_selector(
                tag@,
                attrs_model(attrs@),
                which,
            ) && !any_noise_node(children@) && trim_spec(element_text(n)).len() > 0 {
                seq![element_text(n)]
            } else {
                Seq::empty()
            };
            own + content_parts_nodes(children@, which)
        },
    }
}

pub open spec fn content_parts_nodes(ns: Seq<HtmlNode>, which: int) -> Seq<Seq<char>>
    decreases ns,
{
    if ns.len() == 0 {
        Seq::empty()
    } else {
        content_parts_nodes(ns.drop_last(), which) + content_parts_node(ns.last(), which)
    }
}

/// The texts of the `body` elements, in document order, those that trim to
/// nothing skipped.
pub open spec fn body_parts_node(n: HtmlNode) -> Seq<Seq<char>>
    decreases n,
{
    match n {
        HtmlNode::Text(t) => Seq::empty(),
        HtmlNode::Element { tag, attrs, children } => {
            let own: Seq<Seq<char>> = if tag@ == "body"@ && trim_spec(element_text(n)).len() > 0 {
                seq![element_text(n)]
            } else {
                Seq::empty()
            };
            own + body_parts_nodes(children@)
        },
    }
}

pub open spec fn body_parts_nodes(ns: Seq<HtmlNode>) -> Seq<Seq<char>>
    decreases ns,
{
    if ns.len() == 0 {
        Seq::empty()
    } else {
        body_parts_nodes(ns.drop_last()) + body_parts_node(ns.last())
    }
}

/// Every occurrence of `pat` deleted, scanning left to right without
/// overlap.
pub open spec fn strip_pattern(s: Seq<char>, pat: Seq<char>) -> Seq<char>
    decreases s.len(),
{
    if pat.len() == 0 || s.len() < pat.len() {
        s
    } else if s.take(pat.len() as int) == pat {
        strip_pattern(s.skip(pat.len() as int), pat)
    } else {
        seq![s[0]] + strip_pattern(s.drop_first(), pat)
    }
}

/// Whitespace collapsed: the words joined by single spaces.
pub open spec fn collapse_ws(s: Seq<char>) -> Seq<char> {
    join_space(words_of(s))
}

/// The boilerplate phrases stripped from extracted page text, in order.
pub open spec fn boilerplate_phrases() -> Seq<Seq<char>> {
    seq![
        "Skip to main content"@,
        "Skip to content"@,
        "Jump to navigation"@,
        "Menu"@,
        "Search"@,
        "Toggle navigation"@,
    ]
}

pub open spec fn strip_phrases(s: Seq<char>, i: int) -> Seq<char>
    decreases boilerplate_phrases().len() - i,
{
    if i < 0 || i >= boilerplate_phrases().len() {
        s
    } else {
        strip_phrases(strip_pattern(s, boilerplate_phrases()[i]), i + 1)
    }
}

/// Extracted text, cleaned: whitespace collapsed, boilerplate phrases
/// removed, whitespace collapsed again.
pub open spec fn clean_text(s: Seq<char>) -> Seq<char> {
    collapse_ws(strip_phrases(collapse_ws(s), 0))
}

/// The readable text of a whole page: the matching main-content containers'
/// texts in selector order; if none, the body texts; if still none, the
/// root's own text — joined and cleaned.
pub open spec fn page_text(root: HtmlNode) -> Seq<char> {
    let mains = content_parts_node(root, 0) + content_parts_node(root, 1) + content_parts_node(
        root,
        2,
    ) + content_parts_node(root, 3) + content_parts_node(root, 4) + content_parts_node(root, 5)
        + content_parts_node(root, 6) + content_parts_node(root, 7);
    let parts = if mains.len() > 0 {
        mains
    } else {
        let bodies = body_parts_node(root);
        if bodies.len() > 0 {
            bodies
        } else {
            if trim_spec(element_text(root)).len() > 0 {
                seq![element_text(root)]
            } else {
                Seq::empty()
            }
        }
    };
    clean_text(join_space(parts))
}

/// The raw text below a node, with nothing trimmed or skipped; what a
/// `title` element reads as.
pub open spec fn raw_text_node(n: HtmlNode) -> Seq<char>
    decreases n,
{
    match n {
        HtmlNode::Text(t) => t@,
        HtmlNode::Element { tag, attrs, children } => raw_text_nodes(children@),
    }
}

pub open spec fn raw_text_nodes(ns: Seq<HtmlNode>) -> Seq<char>
    decreases ns,
{
    if ns.len() == 0 {
        Seq::empty()
    } else {
        raw_text_nodes(ns.drop_last()) + raw_text_node(ns.last())
    }
}

/// The text of the first `title` element in document order, if any.
pub open spec fn first_title_node(n: HtmlNode) -> Option<Seq<char>>
    decreases n,
{
    match n {
        HtmlNode::Text(t) => None,
        HtmlNode::Element { tag, attrs, children } => if tag@ == "title"@ {
            Some(raw_text_node(n))
        } else {
            first_title_nodes(children@)
        },
    }
}

pub open spec fn first_title_nodes(ns: Seq<HtmlNode>) -> Option<Seq<char>>
    decreases ns,
{
    if ns.len() == 0 {
        None
    } else if first_title_node(ns[0]) is Some {
        first_title_node(ns[0])
    } else {
        first_title_nodes(ns.drop_first())
    }
}

/// The `href` values of anchor elements, in document order.
pub open spec fn hrefs_node(n: HtmlNode) -> Seq<Seq<char>>
    decreases n,
{
    match n {
        HtmlNode::Text(t) => Seq::empty(),
        HtmlNode::Element { tag, attrs, children } => {
            let own: Seq<Seq<char>> = if tag@ == "a"@ && attr_of(attrs_model(attrs@), "href"@)
                is Some {
                seq![attr_of(attrs_model(attrs@), "href"@)->Some_0]
            } else {
                Seq::empty()
            };
            own + hrefs_nodes(children@)
        },
    }
}

pub open spec fn hrefs_nodes(ns: Seq<HtmlNode>) -> Seq<Seq<char>>
    decreases ns,
{
    if ns.len() == 0 {
        Seq::empty()
    } else {
        hrefs_nodes(ns.drop_last()) + hrefs_node(ns.last())
    }
}

/// Collects the trimmed text fragments below `n`, skipping noise subtrees.
fn collect_text_parts(n: &HtmlNode, out: &mut Vec<Vec<char>>)
    ensures
        final(out).deep_view() == old(out).deep_view() + text_parts_node(*n),
    decreases node_height(*n),
{
    let ghost base = out.deep_view();
    match n {
        HtmlNode::Text(t) => {
            let chars = str_chars(t.as_str());
            let tr = trim_chars(&chars);
            if tr.len() > 0 {
                let ghost trd = tr@;
                out.push(tr);
                proof {
                    assert(out.deep_view() =~~= base.push(trd));
                    assert(out.deep_view() =~~= base + text_parts_node(*n));
                }
            } else {
                proof {
                    assert(out.deep_view() =~~= base + text_parts_node(*n));
                }
            }
        },
        HtmlNode::Element { tag, attrs, children } => {
            if !is_noise_tag_exec(tag) {
                proof {
                    assert(node_height(*n) == nodes_height(children@) + 1);
                }
                let mut i: usize = 0;
                while i < children.len()
                    invariant
                        i <= children@.len(),
                        node_height(*n) == nodes_height(children@) + 1,
                        out.deep_view() == base + text_parts_nodes(children@.take(i as int)),
                    decreases children@.len() - i,
                {
                    proof {
                        assert(children@.take(i + 1 as int).drop_last() =~= children@.take(
                            i as int,
                        ));
                        assert(children@.take(i + 1 as int).last() == children@[i as int]);
                    }
proof {
                        lemma_nodes_height(children@, i as int);
                        assert(node_height(*n) == nodes_height(children@) + 1);
                    }
                    collect_text_parts(&children[i], out);
                    proof {
                        assert(out.deep_view() =~~= base + text_parts_nodes(
                            children@.take(i + 1 as int),
                        ));
                    }
                    i += 1;
                }
                proof {
                    assert(children@.take(children@.len() as int) =~= children@);
                    assert(out.deep_view() =~~= base + text_parts_node(*n));
                }
            } else {
                proof {
                    assert(out.deep_view() =~~= base + text_parts_node(*n));
                }
            }
        },
    }
}

/// Appending one fragment to a join: the first fragment stands alone, later
/// ones get a space before them.
proof fn lemma_join_push(parts: Seq<Seq<char>>, x: Seq<char>)
    ensures
        parts.len() == 0 ==> join_space(parts.push(x)) == x,
        parts.len() > 0 ==> join_space(parts.push(x)) == join_space(parts) + seq![' '] + x,
    decreases parts.len(),
{
    let t = parts.push(x);
    if parts.len() == 0 {
        assert(t.len() == 1 && t[0] == x);
    } else {
        assert(t.drop_first() =~= parts.drop_first().push(x));
        lemma_join_push(parts.drop_first(), x);
        if parts.len() == 1 {
            assert(join_space(t) =~= parts[0] + seq![' '] + x);
            assert(join_space(parts) == parts[0]);
        } else {
            assert(join_space(t) =~= parts[0] + seq![' '] + (join_space(parts.drop_first())
                + seq![' '] + x));
            assert(join_space(t) =~= join_space(parts) + seq![' '] + x);
        }
    }
}

/// The fragments joined by single spaces.
fn join_space_exec(parts: &Vec<Vec<char>>) -> (r: Vec<char>)
    ensures
        r@ == join_space(parts.deep_view()),
{
    let mut r: Vec<char> = Vec::new();
    let mut i: usize = 0;
    proof {
        assert(parts.deep_view().take(0) =~= Seq::<Seq<char>>::empty());
    }
    while i < parts.len()
        invariant
            i <= parts@.len(),
            r@ == join_space(parts.deep_view().take(i as int)),
            i > 0 <==> parts.deep_view().take(i as int).len() > 0,
        decreases parts@.len() - i,
    {
        proof {
            assert(parts@[i as int].deep_view() =~= parts@[i as int]@);
            assert(parts.deep_view()[i as int] == parts@[i as int]@);
            assert(parts.deep_view().take(i + 1 as int) =~= parts.deep_view().take(
                i as int,
            ).push(parts.deep_view()[i as int]));
            lemma_join_push(parts.deep_view().take(i as int), parts.deep_view()[i as int]);
        }
        let ghost pre = r@;
        if i > 0 {
            r.push(' ');
        }
        let w = &parts[i];
        let mut k: usize = 0;
        let ghost mid = r@;
        while k < w.len()
            invariant
                k <= w@.len(),
                r@ == mid + w@.take(k as int),
            decreases w@.len() - k,
        {
            r.push(w[k]);
            proof {
                assert(w@.take(k + 1 as int) =~= w@.take(k as int).push(w@[k as int]));
                assert(r@ =~= mid + w@.take(k + 1 as int));
            }
            k += 1;
        }
        proof {
            assert(w@.take(w@.len() as int) =~= w@);
            if i > 0 {
                assert(mid =~= pre.push(' '));
                assert(r@ =~= pre + seq![' '] + w@);
            } else {
                assert(r@ =~= w@);
            }
            assert(r@ =~= join_space(parts.deep_view().take(i + 1 as int)));
        }
        i += 1;
    }
    proof {
        assert(parts.deep_view().take(parts@.len() as int) =~= parts.deep_view());
    }
    r
}

/// The readable text of an element node, as characters.
fn element_text_chars(n: &HtmlNode) -> (r: Vec<char>)
    ensures
        r@ == element_text(*n),
{
    let mut parts: Vec<Vec<char>> = Vec::new();
    match n {
        HtmlNode::Text(t) => {
            collect_text_parts(n, &mut parts);
            proof {
                assert(parts.deep_view() =~~= text_parts_node(*n));
            }
            join_space_exec(&parts)
        },
        HtmlNode::Element { tag, attrs, children } => {
            let mut i: usize = 0;
            while i < children.len()
                invariant
                    i <= children@.len(),
                    parts.deep_view() == text_parts_nodes(children@.take(i as int)),
                decreases children@.len() - i,
            {
                proof {
                    assert(children@.take(i + 1 as int).drop_last() =~= children@.take(i as int));
                    assert(children@.take(i + 1 as int).last() == children@[i as int]);
                }
                collect_text_parts(&children[i], &mut parts);
                proof {
                    assert(parts.deep_view() =~~= text_parts_nodes(children@.take(i + 1 as int)));
                }
                i += 1;
            }
            proof {
                assert(children@.take(children@.len() as int) =~= children@);
            }
            join_space_exec(&parts)
        },
    }
}

/// Whether `n` is a noise element or has one anywhere below it.
fn noise_in_exec(n: &HtmlNode) -> (r: bool)
    ensures
        r == noise_in_node(*n),
    decreases node_height(*n),
{
    match n {
        HtmlNode::Text(t) => false,
        HtmlNode::Element { tag, attrs, children } => {
            if is_noise_tag_exec(tag) {
                return true;
            }
            proof {
                assert(node_height(*n) == nodes_height(children@) + 1);
            }
            let mut i: usize = 0;
            let mut found = false;
            while i < children.len()
                invariant
                    i <= children@.len(),
                    node_height(*n) == nodes_height(children@) + 1,
                    found == any_noise_node(children@.take(i as int)),
                decreases children@.len() - i,
            {
                proof {
                    assert(children@.take(i + 1 as int).drop_last() =~= children@.take(i as int));
                    assert(children@.take(i + 1 as int).last() == children@[i as int]);
                }
proof {
                    lemma_nodes_height(children@, i as int);
                    assert(node_height(*n) == nodes_height(children@) + 1);
                }
                if !found && noise_in_exec(&children[i]) {
                    found = true;
                } else {
                    proof {
                        assert(any_noise_node(children@.take(i + 1 as int)) == (any_noise_node(
                            children@.take(i as int),
                        ) || noise_in_node(children@[i as int])));
                    }
                }
                i += 1;
            }
            proof {
                assert(children@.take(children@.len() as int) =~= children@);
            }
            found
        },
    }
}

/// Collects the texts of elements below `n` (inclusive) matching a content
/// selector.
fn collect_content_parts(n: &HtmlNode, which: usize, out: &mut Vec<Vec<char>>)
    requires
        which < 8,
    ensures
        final(out).deep_view() == old(out).deep_view() + content_parts_node(*n, which as int),
    decreases node_height(*n),
{
    let ghost base = out.deep_view();
    match n {
        HtmlNode::Text(t) => {
            proof {
                assert(out.deep_view() =~~= base + content_parts_node(*n, which as int));
            }
        },
        HtmlNode::Element { tag, attrs, children } => {
            if matches_content_selector_exec(tag, attrs, which) {
                let mut has_noise = false;
                let mut i: usize = 0;
                while i < children.len()
                    invariant
                        i <= children@.len(),
                        has_noise == any_noise_node(children@.take(i as int)),
                    decreases children@.len() - i,
                {
                    proof {
                        assert(children@.take(i + 1 as int).drop_last() =~= children@.take(
                            i as int,
                        ));
                        assert(children@.take(i + 1 as int).last() == children@[i as int]);
                    }
                    if !has_noise && noise_in_exec(&children[i]) {
                        has_noise = true;
                    }
                    i += 1;
                }
                proof {
                    assert(children@.take(children@.len() as int) =~= children@);
                }
                if !has_noise {
                    let text = element_text_chars(n);
                    let trimmed = trim_chars(&text);
                    if trimmed.len() > 0 {
                        let ghost td = text@;
                        out.push(text);
                        proof {
                            assert(out.deep_view() =~~= base.push(td));
                        }
                    }
                }
            }
            let ghost own_done = out.deep_view();
            proof {
                assert(own_done =~~= base + (if matches_content_selector(
                    tag@,
                    attrs_model(attrs@),
                    which as int,
                ) && !any_noise_node(children@) && trim_spec(element_text(*n)).len() > 0 {
                    seq![element_text(*n)]
                } else {
                    Seq::<Seq<char>>::empty()
                }));
            }
            proof {
                assert(node_height(*n) == nodes_height(children@) + 1);
            }
            let mut i: usize = 0;
            while i < children.len()
                invariant
                    which < 8,
                    i <= children@.len(),
                    node_height(*n) == nodes_height(children@) + 1,
                    out.deep_view() == own_done + content_parts_nodes(
                        children@.take(i as int),
                        which as int,
                    ),
                decreases children@.len() - i,
            {
                proof {
                    assert(children@.take(i + 1 as int).drop_last() =~= children@.take(i as int));
                    assert(children@.take(i + 1 as int).last() == children@[i as int]);
                }
proof {
                    lemma_nodes_height(children@, i as int);
                    assert(node_height(*n) == nodes_height(children@) + 1);
                }
                collect_content_parts(&children[i], which, out);
                proof {
                    assert(out.deep_view() =~~= own_done + content_parts_nodes(
                        children@.take(i + 1 as int),
                        which as int,
                    ));
                }
                i += 1;
            }
            proof {
                assert(children@.take(children@.len() as int) =~= children@);
                assert(out.deep_view() =~~= base + content_parts_node(*n, which as int));
            }
        },
    }
}

/// Collects the texts of `body` elements below `n` (inclusive).
fn collect_body_parts(n: &HtmlNode, out: &mut Vec<Vec<char>>)
    ensures
        final(out).deep_view() == old(out).deep_view() + body_parts_node(*n),
    decreases node_height(*n),
{
    let ghost base = out.deep_view();
    match n {
        HtmlNode::Text(t) => {
            proof {
                assert(out.deep_view() =~~= base + body_parts_node(*n));
            }
        },
        HtmlNode::Element { tag, attrs, children } => {
            if *tag == String::from_str("body") {
                let text = element_text_chars(n);
                let trimmed = trim_chars(&text);
                if trimmed.len() > 0 {
                    let ghost td = text@;
                    out.push(text);
                    proof {
                        assert(out.deep_view() =~~= base.push(td));
                    }
                }
            }
            let ghost own_done = out.deep_view();
            proof {
                assert(own_done =~~= base + (if tag@ == "body"@ && trim_spec(
                    element_text(*n),
                ).len() > 0 {
                    seq![element_text(*n)]
                } else {
                    Seq::<Seq<char>>::empty()
                }));
            }
            proof {
                assert(node_height(*n) == nodes_height(children@) + 1);
            }
            let mut i: usize = 0;
            while i < children.len()
                invariant
                    i <= children@.len(),
                    node_height(*n) == nodes_height(children@) + 1,
                    out.deep_view() == own_done + body_parts_nodes(children@.take(i as int)),
                decreases children@.len() - i,
            {
                proof {
                    assert(children@.take(i + 1 as int).drop_last() =~= children@.take(i as int));
                    assert(children@.take(i + 1 as int).last() == children@[i as int]);
                }
proof {
                    lemma_nodes_height(children@, i as int);
                    assert(node_height(*n) == nodes_height(children@) + 1);
                }
                collect_body_parts(&children[i], out);
                proof {
                    assert(out.deep_view() =~~= own_done + body_parts_nodes(
                        children@.take(i + 1 as int),
                    ));
                }
                i += 1;
            }
            proof {
                assert(children@.take(children@.len() as int) =~= children@);
                assert(out.deep_view() =~~= base + body_parts_node(*n));
            }
        },
    }
}

/// The raw text below a node, untrimmed.
fn raw_text_exec(n: &HtmlNode, out: &mut Vec<char>)
    ensures
        final(out)@ == old(out)@ + raw_text_node(*n),
    decreases node_height(*n),
{
    let ghost base = out@;
    match n {
        HtmlNode::Text(t) => {
            let chars = str_chars(t.as_str());
            let mut k: usize = 0;
            while k < chars.len()
                invariant
                    k <= chars@.len(),
                    chars@ == t@,
                    out@ == base + chars@.take(k as int),
                decreases chars@.len() - k,
            {
                out.push(chars[k]);
                proof {
                    assert(chars@.take(k + 1 as int) =~= chars@.take(k as int).push(
                        chars@[k as int],
                    ));
                    assert(out@ =~= base + chars@.take(k + 1 as int));
                }
                k += 1;
            }
            proof {
                assert(chars@.take(chars@.len() as int) =~= chars@);
            }
        },
        HtmlNode::Element { tag, attrs, children } => {
            proof {
                assert(node_height(*n) == nodes_height(children@) + 1);
                assert(base + raw_text_nodes(children@.take(0)) =~= base);
            }
            let mut i: usize = 0;
            while i < children.len()
                invariant
                    i <= children@.len(),
                    node_height(*n) == nodes_height(children@) + 1,
                    out@ == base + raw_text_nodes(children@.take(i as int)),
                decreases children@.len() - i,
            {
                proof {
                    assert(children@.take(i + 1 as int).drop_last() =~= children@.take(i as int));
                    assert(children@.take(i + 1 as int).last() == children@[i as int]);
                    lemma_nodes_height(children@, i as int);
                }
                raw_text_exec(&children[i], out);
                proof {
                    assert(out@ =~= base + raw_text_nodes(children@.take(i + 1 as int)));
                }
                i += 1;
            }
            proof {
                assert(children@.take(children@.len() as int) =~= children@);
            }
        },
    }
}

/// The text of the first `title` element below `n` (inclusive), if any.
pub fn find_title(n: &HtmlNode) -> (r: Option<String>)
    ensures
        match r {
            Some(t) => first_title_node(*n) == Some(t@),
            None => first_title_node(*n) is None,
        },
    decreases node_height(*n),
{
    match n {
        HtmlNode::Text(t) => None,
        HtmlNode::Element { tag, attrs, children } => {
            if *tag == String::from_str("title") {
                let mut raw: Vec<char> = Vec::new();
                raw_text_exec(n, &mut raw);
                proof {
                    assert(raw@ =~= raw_text_node(*n));
                }
                return Some(string_from_chars(&raw));
            }
            proof {
                assert(node_height(*n) == nodes_height(children@) + 1);
                assert(children@.subrange(0, children@.len() as int) =~= children@);
                assert(first_title_node(*n) == first_title_nodes(children@));
            }
            let mut i: usize = 0;
            while i < children.len()
                invariant
                    i <= children@.len(),
                    node_height(*n) == nodes_height(children@) + 1,
                    first_title_nodes(children@) == first_title_nodes(
                        children@.subrange(i as int, children@.len() as int),
                    ),
                    first_title_node(*n) == first_title_nodes(children@),
                decreases children@.len() - i,
            {
                let ghost rest = children@.subrange(i as int, children@.len() as int);
                proof {
                    assert(rest[0] == children@[i as int]);
                    assert(rest.drop_first() =~= children@.subrange(
                        i + 1 as int,
                        children@.len() as int,
                    ));
                    lemma_nodes_height(children@, i as int);
                }
                let sub = find_title(&children[i]);
                if sub.is_some() {
                    return sub;
                }
                i += 1;
            }
            proof {
                assert(children@.subrange(children@.len() as int, children@.len() as int)
                    =~= Seq::<HtmlNode>::empty());
            }
            None
        },
    }
}

/// Collects the `href` values of anchors below `n` (inclusive).
pub fn collect_hrefs(n: &HtmlNode, out: &mut Vec<String>)
    ensures
        final(out).deep_view() == old(out).deep_view() + hrefs_node(*n),
    decreases node_height(*n),
{
    let ghost base = out.deep_view();
    match n {
        HtmlNode::Text(t) => {
            proof {
                assert(out.deep_view() =~~= base + hrefs_node(*n));
            }
        },
        HtmlNode::Element { tag, attrs, children } => {
            if *tag == String::from_str("a") {
                match find_attr(attrs, "href") {
                    Some(v) => {
                        let ghost vd = v@;
                        out.push(v.clone());
                        proof {
                            assert(out.deep_view() =~~= base.push(vd));
                        }
                    },
                    None => {},
                }
            }
            let ghost own_done = out.deep_view();
            proof {
                assert(own_done =~~= base + (if tag@ == "a"@ && attr_of(
                    attrs_model(attrs@),
                    "href"@,
                ) is Some {
                    seq![attr_of(attrs_model(attrs@), "href"@)->Some_0]
                } else {
                    Seq::<Seq<char>>::empty()
                }));
                assert(node_height(*n) == nodes_height(children@) + 1);
            }
            let mut i: usize = 0;
            while i < children.len()
                invariant
                    i <= children@.len(),
                    node_height(*n) == nodes_height(children@) + 1,
                    out.deep_view() == own_done + hrefs_nodes(children@.take(i as int)),
                decreases children@.len() - i,
            {
                proof {
                    assert(children@.take(i + 1 as int).drop_last() =~= children@.take(i as int));
                    assert(children@.take(i + 1 as int).last() == children@[i as int]);
                    lemma_nodes_height(children@, i as int);
                }
                collect_hrefs(&children[i], out);
                proof {
                    assert(out.deep_view() =~~= own_done + hrefs_nodes(
                        children@.take(i + 1 as int),
                    ));
                }
                i += 1;
            }
            proof {
                assert(children@.take(children@.len() as int) =~= children@);
                assert(out.deep_view() =~~= base + hrefs_node(*n));
            }
        },
    }
}

/// Deletes every occurrence of a non-empty pattern, scanning left to right.
fn strip_pattern_exec(v: &Vec<char>, pat: &Vec<char>) -> (r: Vec<char>)
    requires
        pat@.len() > 0,
    ensures
        r@ == strip_pattern(v@, pat@),
{
    let n = v.len();
    let m = pat.len();
    let mut out: Vec<char> = Vec::new();
    let mut i: usize = 0;
    proof {
        assert(v@.subrange(0, n as int) =~= v@);
        assert(out@ + strip_pattern(v@.subrange(0, n as int), pat@) =~= strip_pattern(v@, pat@));
    }
    while i < n
        invariant
            m == pat@.len(),
            m > 0,
            n == v@.len(),
            i <= n,
            strip_pattern(v@, pat@) == out@ + strip_pattern(
                v@.subrange(i as int, n as int),
                pat@,
            ),
        decreases n - i,
    {
        let ghost rest = v@.subrange(i as int, n as int);
        // does the pattern start here?
        let mut matched = false;
        if m <= n - i {
            let mut j: usize = 0;
            matched = true;
            while j < m
                invariant
                    i + m <= n,
                    n == v@.len(),
                    m == pat@.len(),
                    j <= m,
                    matched ==> forall|x: int| 0 <= x < j ==> v@[i + x] == pat@[x],
                    !matched ==> v@.subrange(i as int, i + m as int) != pat@,
                decreases m - j,
            {
                if v[i + j] != pat[j] {
                    proof {
                        assert(v@.subrange(i as int, i + m as int)[j as int] == v@[i + j]);
                    }
                    matched = false;
                    j = m;
                } else {
                    j += 1;
                }
            }
            proof {
                if matched {
                    assert(v@.subrange(i as int, i + m as int) =~= pat@);
                }
            }
        } else {
            proof {
                assert(rest.len() < m);
            }
        }
        if matched {
            proof {
                assert(rest.take(m as int) =~= v@.subrange(i as int, i + m as int));
                assert(rest.skip(m as int) =~= v@.subrange(i + m as int, n as int));
                assert(strip_pattern(rest, pat@) == strip_pattern(
                    v@.subrange(i + m as int, n as int),
                    pat@,
                ));
            }
            i += m;
        } else {
            proof {
                if rest.len() >= m {
                    assert(rest.take(m as int) =~= v@.subrange(i as int, i + m as int));
                    assert(rest.take(m as int) != pat@);
                }
                assert(rest[0] == v@[i as int]);
                assert(rest.drop_first() =~= v@.subrange(i + 1 as int, n as int));
                assert(strip_pattern(rest, pat@) == seq![v@[i as int]] + strip_pattern(
                    v@.subrange(i + 1 as int, n as int),
                    pat@,
                ));
            }
            let ghost pre = out@;
            out.push(v[i]);
            proof {
                assert(out@ =~= pre + seq![v@[i as int]]);
                assert(out@ + strip_pattern(v@.subrange(i + 1 as int, n as int), pat@)
                    =~= strip_pattern(v@, pat@));
            }
            i += 1;
        }
    }
    proof {
        assert(v@.subrange(n as int, n as int) =~= Seq::<char>::empty());
        assert(out@ =~= strip_pattern(v@, pat@));
    }
    out
}

/// Whitespace collapsed to single spaces between words.
fn collapse_ws_exec(v: &Vec<char>) -> (r: Vec<char>)
    ensures
        r@ == collapse_ws(v@),
{
    let words = split_words(v);
    join_space_exec(&words)
}

/// Extracted page text, cleaned of extra whitespace and boilerplate.
fn clean_text_exec(v: &Vec<char>) -> (r: Vec<char>)
    ensures
        r@ == clean_text(v@),
{
    let collapsed = collapse_ws_exec(v);
    let ghost s0 = collapsed@;
    let p0 = str_chars("Skip to main content");
    let p1 = str_chars("Skip to content");
    let p2 = str_chars("Jump to navigation");
    let p3 = str_chars("Menu");
    let p4 = str_chars("Search");
    let p5 = str_chars("Toggle navigation");
    proof {
        reveal_strlit("Skip to main content");
        reveal_strlit("Skip to content");
        reveal_strlit("Jump to navigation");
        reveal_strlit("Menu");
        reveal_strlit("Search");
        reveal_strlit("Toggle navigation");
    }
    let t0 = strip_pattern_exec(&collapsed, &p0);
    let t1 = strip_pattern_exec(&t0, &p1);
    let t2 = strip_pattern_exec(&t1, &p2);
    let t3 = strip_pattern_exec(&t2, &p3);
    let t4 = strip_pattern_exec(&t3, &p4);
    let t5 = strip_pattern_exec(&t4, &p5);
    proof {
        reveal_with_fuel(strip_phrases, 7);
        assert(t5@ == strip_phrases(s0, 0));
    }
    collapse_ws_exec(&t5)
}

/// The readable text of a whole page, per the extraction rules: semantic
/// main-content containers first, then the body, then the root itself.
pub fn extract_text_content(root: &HtmlNode) -> (r: String)
    ensures
        r@ == page_text(*root),
{
    let mut parts: Vec<Vec<char>> = Vec::new();
    let mut which: usize = 0;
    while which < 8
        invariant
            which <= 8,
            parts.deep_view() == content_selector_parts(*root, which as int),
        decreases 8 - which,
    {
        collect_content_parts(root, which, &mut parts);
        which += 1;
    }
    let ghost mains = content_parts_node(*root, 0) + content_parts_node(*root, 1)
        + content_parts_node(*root, 2) + content_parts_node(*root, 3) + content_parts_node(
        *root,
        4,
    ) + content_parts_node(*root, 5) + content_parts_node(*root, 6) + content_parts_node(*root, 7);
    proof {
        reveal_with_fuel(content_selector_parts, 9);
        assert(parts.deep_view() =~~= mains);
    }
    if parts.len() == 0 {
        collect_body_parts(root, &mut parts);
        proof {
            assert(parts.deep_view() =~~= body_parts_node(*root));
        }
        if parts.len() == 0 {
            let text = element_text_chars(root);
            let trimmed = trim_chars(&text);
            if trimmed.len() > 0 {
                let ghost td = text@;
                parts.push(text);
                proof {
                    assert(parts.deep_view() =~~= Seq::<Seq<char>>::empty().push(td));
                }
            }
        }
    }
    let joined = join_space_exec(&parts);
    let cleaned = clean_text_exec(&joined);
    proof {
        assert(cleaned@ == page_text(*root));
    }
    string_from_chars(&cleaned)
}

/// The first 8 content selectors' parts concatenated, up to selector `k`.
pub open spec fn content_selector_parts(root: HtmlNode, k: int) -> Seq<Seq<char>>
    decreases k,
{
    if k <= 0 {
        Seq::empty()
    } else {
        content_selector_parts(root, k - 1) + content_parts_node(root, k - 1)
    }
}

} // verus!
