//! What every parsed document satisfies: each key lies in the buffer over
//! the bytes its production matched, and each tag is closed by its own name.
use vstd::prelude::*;
use crate::doc::{spec_doc, spec_items};
use crate::lex::{class_fn, is_domain_byte, is_name_byte, is_text_byte, span_len, ByteClass, GREATER, LESS, QUOTE};
use crate::wml::{
    key_bytes, quoted_len, raw_len, spec_attribute, spec_component, spec_continuation,
    spec_continuations, spec_joiner, spec_keys, spec_more_names, spec_name, spec_opt_domain,
    spec_raw_string, spec_text, spec_text_domain, spec_value, spec_wstring, AttributeModel,
    Continuation, KeySequenceModel, Name, StringKey, TextDomain, ValueComponent, ValueModel,
    spec_children, spec_node, spec_tag, skip_len, tag_skip, NodeModel,
};
use crate::lex::one_of;

verus! {

pub open spec fn in_buffer(buf: Seq<u8>, k: StringKey) -> bool {
    k.idx + k.len <= buf.len()
}

/// Every byte that `k` stands for satisfies `class`.
pub open spec fn all_in(buf: Seq<u8>, k: StringKey, class: spec_fn(u8) -> bool) -> bool {
    forall|i: int| k.idx <= i < k.idx + k.len ==> #[trigger] class(buf[i])
}

pub open spec fn name_ok(buf: Seq<u8>, n: Name) -> bool {
    n.content.len > 0 && in_buffer(buf, n.content) && all_in(buf, n.content, |b: u8| is_name_byte(b))
}

pub open spec fn domain_ok(buf: Seq<u8>, d: TextDomain) -> bool {
    d.name.len > 0 && in_buffer(buf, d.name) && all_in(buf, d.name, |b: u8| is_domain_byte(b))
}

pub open spec fn text_ok(buf: Seq<u8>, k: StringKey) -> bool {
    in_buffer(buf, k) && all_in(buf, k, |b: u8| is_text_byte(b))
}

/// `k` sits between two quotes.
pub open spec fn quoted_ok(buf: Seq<u8>, k: StringKey) -> bool {
    1 <= k.idx && k.idx + k.len < buf.len() && buf[k.idx - 1] == QUOTE && buf[k.idx + k.len] == QUOTE
}

/// `k` sits between `<<` and `>>`.
pub open spec fn raw_ok(buf: Seq<u8>, k: StringKey) -> bool {
    2 <= k.idx && k.idx + k.len + 2 <= buf.len() && buf[k.idx - 2] == LESS && buf[k.idx - 1] == LESS
        && buf[k.idx + k.len] == GREATER && buf[k.idx + k.len + 1] == GREATER
}

proof fn lemma_span_all(s: Seq<u8>, class: spec_fn(u8) -> bool)
    ensures
        span_len(s, class) <= s.len(),
        forall|i: int| 0 <= i < span_len(s, class) ==> #[trigger] class(s[i]),
    decreases s.len(),
{
    if s.len() > 0 && class(s[0]) {
        lemma_span_all(s.skip(1), class);
        assert forall|i: int| 0 <= i < span_len(s, class) implies #[trigger] class(s[i]) by {
            if i > 0 {
                assert(s.skip(1)[i - 1] == s[i]);
            }
        }
    }
}

proof fn lemma_quoted_len(s: Seq<u8>)
    ensures
        quoted_len(s) matches Some(n) ==> n < s.len() && s[n as int] == QUOTE,
    decreases s.len(),
{
    if s.len() > 0 && s[0] != QUOTE {
        lemma_quoted_len(s.skip(1));
    } else if s.len() >= 2 && s[0] == QUOTE && s[1] == QUOTE {
        lemma_quoted_len(s.skip(2));
    }
}

proof fn lemma_raw_len(s: Seq<u8>)
    ensures
        raw_len(s) matches Some(n) ==> n + 2 <= s.len() && s[n as int] == GREATER && s[n + 1int] == GREATER,
    decreases s.len(),
{
    if s.len() >= 2 && !(s[0] == GREATER && s[1] == GREATER) {
        lemma_raw_len(s.skip(1));
    }
}

/// The bytes of a span starting at `off + k` in `buf` all lie in its class.
proof fn lemma_span_in_buffer(buf: Seq<u8>, off: int, k: int, class: spec_fn(u8) -> bool)
    requires
        0 <= off,
        0 <= k,
        off + k <= buf.len(),
    ensures
        off + k + span_len(buf.skip(off).skip(k), class) <= buf.len(),
        forall|i: int| off + k <= i < off + k + span_len(buf.skip(off).skip(k), class) ==> #[trigger] class(buf[i]),
{
    let t = buf.skip(off).skip(k);
    assert(t =~= buf.skip(off + k));
    lemma_span_all(t, class);
    assert forall|i: int| off + k <= i < off + k + span_len(t, class) implies #[trigger] class(buf[i]) by {
        assert(t[i - off - k] == buf[i]);
    }
}

proof fn lemma_name_ok(buf: Seq<u8>, off: int)
    requires
        0 <= off <= buf.len(),
        off <= usize::MAX,
        buf.len() <= usize::MAX,
    ensures
        spec_name(buf.skip(off), off) matches Some((n, name)) ==> 0 < n <= buf.len() - off && name_ok(buf, name),
{
    lemma_span_in_buffer(buf, off, 0, class_fn(ByteClass::Name));
    assert(buf.skip(off).skip(0) =~= buf.skip(off));
}


proof fn lemma_text_ok(buf: Seq<u8>, off: int)
    requires
        0 <= off <= buf.len(),
        buf.len() <= usize::MAX,
    ensures
        0 <= spec_text(buf.skip(off), off).0 <= buf.len() - off,
        text_ok(buf, spec_text(buf.skip(off), off).1.content),
{
    lemma_span_in_buffer(buf, off, 0, class_fn(ByteClass::Text));
    assert(buf.skip(off).skip(0) =~= buf.skip(off));
}

proof fn lemma_wstring_ok(buf: Seq<u8>, off: int)
    requires
        0 <= off <= buf.len(),
        buf.len() <= usize::MAX,
    ensures
        spec_wstring(buf.skip(off), off) matches Some((n, w)) ==> 0 < n <= buf.len() - off && in_buffer(buf, w.content)
            && quoted_ok(buf, w.content),
{
    let s = buf.skip(off);
    if s.len() > 0 && s[0] == QUOTE {
        lemma_quoted_len(s.skip(1));
        if quoted_len(s.skip(1)) is Some {
            let n = quoted_len(s.skip(1)).unwrap() as int;
            assert(s.skip(1)[n] == buf[off + 1 + n]);
            assert(s[0] == buf[off]);
        }
    }
}

proof fn lemma_raw_string_ok(buf: Seq<u8>, off: int)
    requires
        0 <= off <= buf.len(),
        buf.len() <= usize::MAX,
    ensures
        spec_raw_string(buf.skip(off), off) matches Some((n, r)) ==> 0 < n <= buf.len() - off && in_buffer(buf, r.content)
            && raw_ok(buf, r.content),
{
    let s = buf.skip(off);
    if s.len() >= 2 && s[0] == LESS && s[1] == LESS {
        lemma_raw_len(s.skip(2));
        if raw_len(s.skip(2)) is Some {
            let n = raw_len(s.skip(2)).unwrap() as int;
            assert(s.skip(2)[n] == buf[off + 2 + n]);
            assert(s.skip(2)[n + 1] == buf[off + 3 + n]);
            assert(s[0] == buf[off]);
            assert(s[1] == buf[off + 1]);
        }
    }
}

proof fn lemma_text_domain_ok(buf: Seq<u8>, off: int)
    requires
        0 <= off <= buf.len(),
        buf.len() <= usize::MAX,
    ensures
        spec_text_domain(buf.skip(off), off) matches Some((n, d)) ==> 0 < n <= buf.len() - off && domain_ok(buf, d),
{
    let s = buf.skip(off);
    if spec_text_domain(s, off) is Some {
        let w = span_len(s.skip(11), class_fn(ByteClass::Blank)) as int;
        assert(s.skip(11 + w) =~= buf.skip(off).skip(11 + w));
        lemma_span_all(s.skip(11), class_fn(ByteClass::Blank));
        lemma_span_in_buffer(buf, off, 11 + w, class_fn(ByteClass::Domain));
    }
}


pub open spec fn component_ok(buf: Seq<u8>, c: ValueComponent) -> bool {
    match c {
        ValueComponent::Text(t) => text_ok(buf, t.content),
        ValueComponent::String(w) => in_buffer(buf, w.content) && quoted_ok(buf, w.content),
        ValueComponent::RawString(r) => in_buffer(buf, r.content) && raw_ok(buf, r.content),
    }
}

pub open spec fn opt_domain_ok(buf: Seq<u8>, d: Option<TextDomain>) -> bool {
    match d {
        Some(x) => domain_ok(buf, x),
        None => true,
    }
}

pub open spec fn names_ok(buf: Seq<u8>, names: Seq<Name>) -> bool {
    forall|i: int| 0 <= i < names.len() ==> name_ok(buf, #[trigger] names[i])
}

pub open spec fn continuations_ok(buf: Seq<u8>, cs: Seq<Continuation>) -> bool {
    forall|i: int| 0 <= i < cs.len() ==> opt_domain_ok(buf, (#[trigger] cs[i]).0) && component_ok(buf, cs[i].1)
}

pub open spec fn keys_ok(buf: Seq<u8>, k: KeySequenceModel) -> bool {
    name_ok(buf, k.first) && names_ok(buf, k.names)
}

pub open spec fn value_ok(buf: Seq<u8>, v: ValueModel) -> bool {
    component_ok(buf, v.first) && continuations_ok(buf, v.rest)
}

pub open spec fn attribute_ok(buf: Seq<u8>, a: AttributeModel) -> bool {
    opt_domain_ok(buf, a.domain) && keys_ok(buf, a.keys) && value_ok(buf, a.value)
}

proof fn lemma_component_ok(buf: Seq<u8>, off: int)
    requires
        0 <= off <= buf.len(),
        buf.len() <= usize::MAX,
    ensures
        0 <= spec_component(buf.skip(off), off).0 <= buf.len() - off,
        component_ok(buf, spec_component(buf.skip(off), off).1),
{
    reveal(spec_component);
    let s = buf.skip(off);
    let u: int = if s.len() > 0 && s[0] == 95u8 { 1 } else { 0 };
    assert(s.skip(u) =~= buf.skip(off + u));
    lemma_wstring_ok(buf, off + u);
    lemma_raw_string_ok(buf, off + u);
    lemma_text_ok(buf, off);
}

proof fn lemma_more_names_ok(buf: Seq<u8>, off: int)
    requires
        0 <= off <= buf.len(),
        buf.len() <= usize::MAX,
    ensures
        spec_more_names(buf.skip(off), off) matches Some((n, names)) ==> 0 <= n <= buf.len() - off && names_ok(buf, names),
    decreases buf.len() - off,
{
    let s = buf.skip(off);
    if s.len() > 0 && s[0] == 44u8 {
        assert(s.skip(1) =~= buf.skip(off + 1));
        lemma_name_ok(buf, off + 1);
        if spec_name(s.skip(1), off + 1) is Some {
            let (n, name) = spec_name(s.skip(1), off + 1).unwrap();
            if 0 < n && n < s.len() {
                assert(s.skip(1 + n) =~= buf.skip(off + 1 + n));
                lemma_more_names_ok(buf, off + 1 + n);
                if spec_more_names(s.skip(1 + n), off + 1 + n) is Some {
                    let rest = spec_more_names(s.skip(1 + n), off + 1 + n).unwrap().1;
                    let all = seq![name] + rest;
                    assert forall|i: int| 0 <= i < all.len() implies name_ok(buf, #[trigger] all[i]) by {
                        if i > 0 {
                            assert(all[i] == rest[i - 1]);
                        }
                    }
                }
            }
        }
    }
}

proof fn lemma_keys_ok(buf: Seq<u8>, off: int)
    requires
        0 <= off <= buf.len(),
        buf.len() <= usize::MAX,
    ensures
        spec_keys(buf.skip(off), off) matches Some((n, k)) ==> 0 < n <= buf.len() - off && keys_ok(buf, k),
{
    let s = buf.skip(off);
    lemma_name_ok(buf, off);
    if spec_name(s, off) is Some {
        let n = spec_name(s, off).unwrap().0;
        assert(s.skip(n) =~= buf.skip(off + n));
        lemma_more_names_ok(buf, off + n);
    }
}

proof fn lemma_continuation_ok(buf: Seq<u8>, off: int)
    requires
        0 <= off < buf.len(),
        buf.len() <= usize::MAX,
    ensures
        0 < spec_continuation(buf.skip(off), off).0,
        spec_continuation(buf.skip(off), off).0 <= buf.len() - off,
        opt_domain_ok(buf, spec_continuation(buf.skip(off), off).1.0),
        component_ok(buf, spec_continuation(buf.skip(off), off).1.1),
{
    reveal(spec_continuation);
    let s = buf.skip(off);
    if s.len() > 1 && s[1] == 10u8 {
        assert(s.skip(2) =~= buf.skip(off + 2));
        lemma_text_domain_ok(buf, off + 2);
    }
    let k = spec_joiner(s, off).0;
    assert(s.skip(k) =~= buf.skip(off + k));
    lemma_component_ok(buf, off + k);
}

proof fn lemma_continuations_ok(buf: Seq<u8>, off: int)
    requires
        0 <= off <= buf.len(),
        buf.len() <= usize::MAX,
    ensures
        0 <= spec_continuations(buf.skip(off), off).0 <= buf.len() - off,
        continuations_ok(buf, spec_continuations(buf.skip(off), off).1),
    decreases buf.len() - off,
{
    let s = buf.skip(off);
    if s.len() > 0 && s[0] == 43u8 {
        lemma_continuation_ok(buf, off);
        let (n, c) = spec_continuation(s, off);
        assert(s.skip(n) =~= buf.skip(off + n));
        lemma_continuations_ok(buf, off + n);
        let rest = spec_continuations(s.skip(n), off + n).1;
        let all = seq![c] + rest;
        assert forall|i: int| 0 <= i < all.len() implies opt_domain_ok(buf, (#[trigger] all[i]).0) && component_ok(buf, all[i].1) by {
            if i > 0 {
                assert(all[i] == rest[i - 1]);
            }
        }
    }
}

proof fn lemma_value_ok(buf: Seq<u8>, off: int)
    requires
        0 <= off <= buf.len(),
        buf.len() <= usize::MAX,
    ensures
        0 <= spec_value(buf.skip(off), off).0 <= buf.len() - off,
        value_ok(buf, spec_value(buf.skip(off), off).1),
{
    let s = buf.skip(off);
    lemma_component_ok(buf, off);
    let n = spec_component(s, off).0;
    assert(s.skip(n) =~= buf.skip(off + n));
    lemma_continuations_ok(buf, off + n);
}

proof fn lemma_attribute_ok(buf: Seq<u8>, off: int)
    requires
        0 <= off <= buf.len(),
        buf.len() <= usize::MAX,
    ensures
        spec_attribute(buf.skip(off), off) matches Some((n, a)) ==> 0 < n <= buf.len() - off && attribute_ok(buf, a),
{
    reveal(spec_attribute);
    let s = buf.skip(off);
    lemma_text_domain_ok(buf, off);
    let d = spec_opt_domain(s, off).0;
    assert(s.skip(d) =~= buf.skip(off + d));
    lemma_keys_ok(buf, off + d);
    if spec_keys(s.skip(d), off + d) is Some {
        let p = d + spec_keys(s.skip(d), off + d).unwrap().0;
        if p < s.len() {
            assert(s.skip(p + 1) =~= buf.skip(off + p + 1));
            lemma_value_ok(buf, off + p + 1);
        }
    }
}


/// Every key in `n` lies in `buf` over bytes of the production that made it.
pub open spec fn node_keys_ok(buf: Seq<u8>, n: NodeModel) -> bool
    decreases n,
{
    match n {
        NodeModel::Tag(t) => name_ok(buf, t.name) && name_ok(buf, t.close) && forall|i: int|
            0 <= i < t.content.len() ==> #[trigger] node_keys_ok(buf, t.content[i]),
        NodeModel::Attr(a) => attribute_ok(buf, a),
    }
}

/// Every tag in `n` is closed by the same bytes that open it.
pub open spec fn node_balanced(buf: Seq<u8>, n: NodeModel) -> bool
    decreases n,
{
    match n {
        NodeModel::Tag(t) => key_bytes(buf, t.name.content) == key_bytes(buf, t.close.content) && forall|i: int|
            0 <= i < t.content.len() ==> #[trigger] node_balanced(buf, t.content[i]),
        NodeModel::Attr(_) => true,
    }
}

pub open spec fn nodes_ok(buf: Seq<u8>, nodes: Seq<NodeModel>) -> bool {
    forall|i: int| 0 <= i < nodes.len() ==> node_keys_ok(buf, #[trigger] nodes[i]) && node_balanced(buf, nodes[i])
}

proof fn lemma_cons_ok(buf: Seq<u8>, first: NodeModel, rest: Seq<NodeModel>)
    requires
        node_keys_ok(buf, first),
        node_balanced(buf, first),
        nodes_ok(buf, rest),
    ensures
        nodes_ok(buf, seq![first] + rest),
{
    let all = seq![first] + rest;
    assert forall|i: int| 0 <= i < all.len() implies node_keys_ok(buf, #[trigger] all[i]) && node_balanced(buf, all[i]) by {
        if i > 0 {
            assert(all[i] == rest[i - 1]);
        }
    }
}

proof fn lemma_skip_ok(buf: Seq<u8>, off: int)
    requires
        0 <= off <= buf.len(),
    ensures
        off + skip_len(buf.skip(off)) <= buf.len(),
{
    lemma_span_all(buf.skip(off), one_of(tag_skip()));
}

proof fn lemma_tag_ok(buf: Seq<u8>, off: int)
    requires
        0 <= off <= buf.len(),
        buf.len() <= usize::MAX,
    ensures
        spec_tag(buf.skip(off), off) matches Some((n, t)) ==> 0 < n <= buf.len() - off && node_keys_ok(buf, NodeModel::Tag(t))
            && node_balanced(buf, NodeModel::Tag(t)),
    decreases buf.len() - off, 0int,
{
    let s = buf.skip(off);
    if spec_tag(s, off) is Some {
        assert(s.skip(1) =~= buf.skip(off + 1));
        lemma_name_ok(buf, off + 1);
        let (n, name) = spec_name(s.skip(1), off + 1).unwrap();
        let b = 1 + n;
        assert(s.skip(b + 1) =~= buf.skip(off + b + 1));
        let p = b + 1 + skip_len(s.skip(b + 1));
        assert(s.skip(p) =~= buf.skip(off + p));
        lemma_children_ok(buf, off + p);
        let (c, content) = spec_children(s.skip(p), off + p);
        let q = p + c;
        assert(s.skip(q + 2) =~= buf.skip(off + q + 2));
        lemma_name_ok(buf, off + q + 2);
        let (n2, close) = spec_name(s.skip(q + 2), off + q + 2).unwrap();
        let e = q + 2 + n2;
        assert(s.skip(e + 1) =~= buf.skip(off + e + 1));
        lemma_skip_ok(buf, off + e + 1);
        assert(key_bytes(buf, name.content) =~= s.subrange(1, b));
        assert(key_bytes(buf, close.content) =~= s.subrange(q + 2, e));
        let t = spec_tag(s, off).unwrap().1;
        assert(t.content == content);
        assert forall|i: int| 0 <= i < t.content.len() implies #[trigger] node_keys_ok(buf, t.content[i]) by {
            assert(node_keys_ok(buf, content[i]));
        }
        assert forall|i: int| 0 <= i < t.content.len() implies #[trigger] node_balanced(buf, t.content[i]) by {
            assert(node_balanced(buf, content[i]));
        }
    }
}

proof fn lemma_node_ok(buf: Seq<u8>, off: int)
    requires
        0 <= off <= buf.len(),
        buf.len() <= usize::MAX,
    ensures
        spec_node(buf.skip(off), off) matches Some((n, node)) ==> 0 < n <= buf.len() - off && node_keys_ok(buf, node)
            && node_balanced(buf, node),
    decreases buf.len() - off, 1int,
{
    lemma_tag_ok(buf, off);
    lemma_attribute_ok(buf, off);
}

proof fn lemma_children_ok(buf: Seq<u8>, off: int)
    requires
        0 <= off <= buf.len(),
        buf.len() <= usize::MAX,
    ensures
        0 <= spec_children(buf.skip(off), off).0 <= buf.len() - off,
        nodes_ok(buf, spec_children(buf.skip(off), off).1),
    decreases buf.len() - off, 2int,
{
    let s = buf.skip(off);
    lemma_skip_ok(buf, off);
    let k = skip_len(s);
    assert(s.skip(k) =~= buf.skip(off + k));
    lemma_node_ok(buf, off + k);
    if spec_node(s.skip(k), off + k) is Some {
        let (m, node) = spec_node(s.skip(k), off + k).unwrap();
        if 0 < m && k + m <= s.len() {
            assert(s.skip(k + m) =~= buf.skip(off + k + m));
            lemma_children_ok(buf, off + k + m);
            lemma_cons_ok(buf, node, spec_children(s.skip(k + m), off + k + m).1);
        }
    }
}

proof fn lemma_items_ok(buf: Seq<u8>, off: int)
    requires
        0 <= off <= buf.len(),
        buf.len() <= usize::MAX,
    ensures
        nodes_ok(buf, spec_items(buf.skip(off), off).1),
    decreases buf.len() - off,
{
    let s = buf.skip(off);
    lemma_node_ok(buf, off);
    if spec_node(s, off) is Some {
        let (m, node) = spec_node(s, off).unwrap();
        if 0 < m <= s.len() {
            assert(s.skip(m) =~= buf.skip(off + m));
            lemma_items_ok(buf, off + m);
            lemma_cons_ok(buf, node, spec_items(s.skip(m), off + m).1);
        }
    }
}

/// Every key in a parsed document lies inside its buffer, over the bytes that
/// its production matched: names over name bytes, text domains over domain
/// bytes, text over bytes other than `+` and line breaks, and strings between
/// their quotes or between `<<` and `>>`.
pub proof fn lemma_doc_keys_faithful(buf: Seq<u8>)
    requires
        buf.len() <= usize::MAX,
    ensures
        match spec_doc(buf) {
            Some(top) => forall|i: int| 0 <= i < top.len() ==> #[trigger] node_keys_ok(buf, top[i]),
            None => true,
        },
{
    assert(buf.skip(0) =~= buf);
    lemma_items_ok(buf, 0);
    if spec_doc(buf) is Some {
        let top = spec_doc(buf).unwrap();
        assert forall|i: int| 0 <= i < top.len() implies #[trigger] node_keys_ok(buf, top[i]) by {
            assert(node_keys_ok(buf, top[i]) && node_balanced(buf, top[i]));
        }
    }
}

/// Every tag in a parsed document, at any depth, is closed by the same bytes
/// that name it.
pub proof fn lemma_doc_tags_balanced(buf: Seq<u8>)
    requires
        buf.len() <= usize::MAX,
    ensures
        match spec_doc(buf) {
            Some(top) => forall|i: int| 0 <= i < top.len() ==> #[trigger] node_balanced(buf, top[i]),
            None => true,
        },
{
    assert(buf.skip(0) =~= buf);
    lemma_items_ok(buf, 0);
    if spec_doc(buf) is Some {
        let top = spec_doc(buf).unwrap();
        assert forall|i: int| 0 <= i < top.len() implies #[trigger] node_balanced(buf, top[i]) by {
            assert(node_keys_ok(buf, top[i]) && node_balanced(buf, top[i]));
        }
    }
}

} // verus!
