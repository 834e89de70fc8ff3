use vstd::prelude::*;

verus! {

/// One XML element: its local tag name, its direct text content (the text of
/// its first child when that child is a text node), and its element children
/// in document order.
pub struct XmlNode {
    pub tag: String,
    pub text: Option<String>,
    pub children: Vec<XmlNode>,
}

/// All elements of the subtree rooted at `n` whose local tag name is `t`,
/// in document order (depth-first, a node before its children).
pub open spec fn tagged(n: XmlNode, t: Seq<char>) -> Seq<XmlNode>
    decreases n,
{
    (if n.tag@ == t {
        seq![n]
    } else {
        Seq::<XmlNode>::empty()
    }) + tagged_forest(n.children@, t)
}

/// The concatenation of `tagged` over the nodes of `ns`, in order.
pub open spec fn tagged_forest(ns: Seq<XmlNode>, t: Seq<char>) -> Seq<XmlNode>
    decreases ns,
{
    if ns.len() == 0 {
        Seq::empty()
    } else {
        tagged(ns[0], t) + tagged_forest(ns.drop_first(), t)
    }
}

/// The direct text of each node of `ns` that has any, in order.
pub open spec fn texts_of(ns: Seq<XmlNode>) -> Seq<Seq<char>>
    decreases ns.len(),
{
    if ns.len() == 0 {
        Seq::empty()
    } else {
        (match ns[0].text {
            Some(t) => seq![t@],
            None => Seq::<Seq<char>>::empty(),
        }) + texts_of(ns.drop_first())
    }
}

/// `tagged_forest` splits around any cut of the node list.
proof fn lemma_tagged_forest_split(ns: Seq<XmlNode>, t: Seq<char>, k: int)
    requires
        0 <= k <= ns.len(),
    ensures
        tagged_forest(ns, t) == tagged_forest(ns.take(k), t) + tagged_forest(ns.skip(k), t),
    decreases k,
{
    if k == 0 {
        assert(ns.take(0) =~= Seq::<XmlNode>::empty());
        assert(ns.skip(0) =~= ns);
        assert(tagged_forest(ns, t) =~= tagged_forest(ns.take(0), t) + tagged_forest(
            ns.skip(0),
            t,
        ));
    } else {
        let rest = ns.drop_first();
        lemma_tagged_forest_split(rest, t, k - 1);
        assert(ns.take(k)[0] == ns[0]);
        assert(ns.take(k).drop_first() =~= rest.take(k - 1));
        assert(ns.skip(k) =~= rest.skip(k - 1));
        assert(tagged_forest(ns, t) =~= tagged_forest(ns.take(k), t) + tagged_forest(
            ns.skip(k),
            t,
        ));
    }
}

/// `texts_of` distributes over concatenation.
proof fn lemma_texts_of_add(a: Seq<XmlNode>, b: Seq<XmlNode>)
    ensures
        texts_of(a + b) == texts_of(a) + texts_of(b),
    decreases a.len(),
{
    if a.len() == 0 {
        assert(a + b =~= b);
        assert(texts_of(a + b) =~= texts_of(a) + texts_of(b));
    } else {
        lemma_texts_of_add(a.drop_first(), b);
        assert((a + b)[0] == a[0]);
        assert((a + b).drop_first() =~= a.drop_first() + b);
        assert(texts_of(a + b) =~= texts_of(a) + texts_of(b));
    }
}

/// The forest of a single node is that node's own `tagged` sequence.
proof fn lemma_tagged_forest_singleton(n: XmlNode, t: Seq<char>)
    ensures
        tagged_forest(seq![n], t) == tagged(n, t),
{
    assert(seq![n][0] == n);
    assert(seq![n].drop_first() =~= Seq::<XmlNode>::empty());
    assert(tagged_forest(seq![n], t) == tagged(n, t) + tagged_forest(
        Seq::<XmlNode>::empty(),
        t,
    ));
    assert(tagged_forest(Seq::<XmlNode>::empty(), t) == Seq::<XmlNode>::empty());
    assert(tagged(n, t) + Seq::<XmlNode>::empty() =~= tagged(n, t));
}

#[verifier::external_type_specification]
#[verifier::external_body]
pub struct ExRoxmlNode<'a, 'input: 'a>(roxmltree::Node<'a, 'input>);

/// What parsing a text as XML yields: the element tree under the root
/// element, or the parser's error message. Parsing is a function of the
/// text alone, so two parses of equal texts agree.
pub uninterp spec fn xml_parse(s: Seq<char>) -> Result<XmlNode, Seq<char>>;

/// The parse outcome `r` agrees with the named outcome `p`: the same tree on
/// success, the same message on failure.
pub open spec fn parse_agrees(r: Result<XmlNode, String>, p: Result<XmlNode, Seq<char>>) -> bool {
    match r {
        Ok(got) => p == Ok::<XmlNode, Seq<char>>(got),
        Err(e) => p == Err::<XmlNode, Seq<char>>(e@),
    }
}

/// Relies on roxmltree::Node: `tag_name().name()` is the element's local tag
/// name, `text()` is its direct text content (the text of its first child
/// when that child is a text node), `children()` yields the child nodes in
/// document order, and `is_element()` tells element nodes from text, comment
/// and processing-instruction nodes. Rebuilds the element subtree at `n`.
#[verifier::external_body]
fn node_tree(n: &roxmltree::Node) -> XmlNode {
    let mut children = Vec::new();
    for c in n.children() {
        if c.is_element() {
            children.push(node_tree(&c));
        }
    }
    XmlNode {
        tag: n.tag_name().name().to_string(),
        text: n.text().map(|t| t.to_string()),
        children,
    }
}

/// Relies on roxmltree::Document::parse, which builds the node tree of a
/// well-formed XML text and reports an error on a malformed one, and on
/// Document::root_element, the element that encloses every other element.
/// The parse depends on the text alone; `xml_parse` names its outcome.
#[verifier::external_body]
pub(crate) fn parse_document(s: &str) -> (r: Result<XmlNode, String>)
    ensures
        parse_agrees(r, xml_parse(s@)),
{
    match roxmltree::Document::parse(s) {
        Ok(doc) => Ok(node_tree(&doc.root_element())),
        Err(e) => Err(e.to_string()),
    }
}

/// Appends to `out` the direct text of every element tagged `t` in `n`'s
/// subtree that has any, in document order.
pub fn collect_texts(n: &XmlNode, t: &String, out: &mut Vec<String>)
    ensures
        final(out).deep_view() == old(out).deep_view() + texts_of(tagged(*n, t@)),
    decreases *n,
{
    let ghost head: Seq<XmlNode> = if n.tag@ == t@ {
        seq![*n]
    } else {
        Seq::<XmlNode>::empty()
    };
    if n.tag.eq(t) {
        if let Some(s) = &n.text {
            let ghost before = out.deep_view();
            let cl = s.clone();
            out.push(cl);
            proof {
                assert(cl == *s);
                assert(forall|i: int|
                    0 <= i < before.len() ==> out.deep_view()[i] == before[i]);
                assert(out.deep_view()[before.len() as int] == s@);
                assert(head.len() == 1 && head[0] == *n);
                assert(head.drop_first() =~= Seq::<XmlNode>::empty());
                assert(n.text == Some(*s));
                assert(texts_of(Seq::<XmlNode>::empty()) == Seq::<Seq<char>>::empty());
                assert(texts_of(head) =~= seq![s@]);
                assert(out.deep_view() =~= before + texts_of(head));
            }
        } else {
            proof {
                assert(head.len() == 1 && head[0] == *n);
                assert(head.drop_first() =~= Seq::<XmlNode>::empty());
                assert(n.text is None);
                assert(texts_of(Seq::<XmlNode>::empty()) == Seq::<Seq<char>>::empty());
                assert(texts_of(head) =~= Seq::<Seq<char>>::empty());
                assert(out.deep_view() =~= old(out).deep_view() + texts_of(head));
            }
        }
    } else {
        proof {
            assert(out.deep_view() =~= old(out).deep_view() + texts_of(head));
        }
    }
    let mut i: usize = 0;
    while i < n.children.len()
        invariant
            i <= n.children.len(),
            out.deep_view() == old(out).deep_view() + texts_of(head) + texts_of(
                tagged_forest(n.children@.take(i as int), t@),
            ),
            head == (if n.tag@ == t@ {
                seq![*n]
            } else {
                Seq::<XmlNode>::empty()
            }),
        decreases n.children.len() - i,
    {
        proof {
            assert(n.children@.take(0) =~= Seq::<XmlNode>::empty());
        }
        collect_texts(&n.children[i], t, out);
        proof {
            let cs = n.children@;
            lemma_tagged_forest_split(cs.take(i as int + 1), t@, i as int);
            assert(cs.take(i as int + 1).take(i as int) =~= cs.take(i as int));
            assert(cs.take(i as int + 1).skip(i as int) =~= seq![cs[i as int]]);
            lemma_tagged_forest_singleton(cs[i as int], t@);
            lemma_texts_of_add(
                tagged_forest(cs.take(i as int), t@),
                tagged(cs[i as int], t@),
            );
            assert(out.deep_view() =~= old(out).deep_view() + texts_of(head) + texts_of(
                tagged_forest(cs.take(i as int + 1), t@),
            ));
        }
        i += 1;
    }
    proof {
        assert(n.children@.take(n.children@.len() as int) =~= n.children@);
        lemma_texts_of_add(head, tagged_forest(n.children@, t@));
        assert(head + tagged_forest(n.children@, t@) == tagged(*n, t@));
        assert(out.deep_view() =~= old(out).deep_view() + texts_of(tagged(*n, t@)));
    }
}

/// The first element tagged `t` in `n`'s subtree, in document order.
pub fn first_tagged<'a>(n: &'a XmlNode, t: &String) -> (r: Option<&'a XmlNode>)
    ensures
        match r {
            Some(m) => tagged(*n, t@).len() > 0 && *m == tagged(*n, t@)[0],
            None => tagged(*n, t@).len() == 0,
        },
    decreases *n,
{
    if n.tag.eq(t) {
        return Some(n);
    }
    let mut i: usize = 0;
    while i < n.children.len()
        invariant
            i <= n.children.len(),
            n.tag@ != t@,
            tagged_forest(n.children@.take(i as int), t@) == Seq::<XmlNode>::empty(),
        decreases n.children.len() - i,
    {
        let r = first_tagged(&n.children[i], t);
        proof {
            let cs = n.children@;
            lemma_tagged_forest_split(cs.take(i as int + 1), t@, i as int);
            assert(cs.take(i as int + 1).take(i as int) =~= cs.take(i as int));
            assert(cs.take(i as int + 1).skip(i as int) =~= seq![cs[i as int]]);
            lemma_tagged_forest_singleton(cs[i as int], t@);
            lemma_tagged_forest_split(cs, t@, i as int + 1);
        }
        if let Some(m) = r {
            proof {
                let cs = n.children@;
                let whole = tagged(*n, t@);
                assert(whole =~= tagged(cs[i as int], t@) + tagged_forest(
                    cs.skip(i as int + 1),
                    t@,
                ));
                assert(whole[0] == tagged(cs[i as int], t@)[0]);
            }
            return Some(m);
        }
        proof {
            assert(tagged_forest(n.children@.take(i as int + 1), t@) =~= Seq::<
                XmlNode,
            >::empty());
        }
        i += 1;
    }
    proof {
        assert(n.children@.take(n.children@.len() as int) =~= n.children@);
        assert(tagged(*n, t@) =~= Seq::<XmlNode>::empty());
    }
    None
}

/// The last element tagged `t` in `n`'s subtree, in document order.
pub fn last_tagged<'a>(n: &'a XmlNode, t: &String) -> (r: Option<&'a XmlNode>)
    ensures
        match r {
            Some(m) => tagged(*n, t@).len() > 0 && *m == tagged(*n, t@).last(),
            None => tagged(*n, t@).len() == 0,
        },
    decreases *n,
{
    let mut i: usize = n.children.len();
    while i > 0
        invariant
            i <= n.children.len(),
            tagged_forest(n.children@.skip(i as int), t@) == Seq::<XmlNode>::empty(),
        decreases i,
    {
        let r = last_tagged(&n.children[i - 1], t);
        proof {
            let cs = n.children@;
            lemma_tagged_forest_split(cs.skip(i as int - 1), t@, 1);
            assert(cs.skip(i as int - 1).take(1) =~= seq![cs[i as int - 1]]);
            assert(cs.skip(i as int - 1).skip(1) =~= cs.skip(i as int));
            lemma_tagged_forest_singleton(cs[i as int - 1], t@);
        }
        if let Some(m) = r {
            proof {
                let cs = n.children@;
                lemma_tagged_forest_split(cs, t@, i as int - 1);
                let whole = tagged(*n, t@);
                let sub = tagged(cs[i as int - 1], t@);
                assert(tagged_forest(cs.skip(i as int - 1), t@) =~= sub);
                assert(whole.last() == sub.last());
            }
            return Some(m);
        }
        proof {
            assert(tagged_forest(n.children@.skip(i as int - 1), t@) =~= Seq::<
                XmlNode,
            >::empty());
        }
        i -= 1;
    }
    proof {
        assert(n.children@.skip(0) =~= n.children@);
    }
    if n.tag.eq(t) {
        proof {
            assert(tagged(*n, t@) =~= seq![*n]);
        }
        Some(n)
    } else {
        proof {
            assert(tagged(*n, t@) =~= Seq::<XmlNode>::empty());
        }
        None
    }
}

} // verus!
