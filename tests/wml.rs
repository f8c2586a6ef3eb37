use wesnoth_wire::doc::DocProcessor;
use wesnoth_wire::effects::{EffectResult, Printer};
use wesnoth_wire::lex::{tagged, tagged_many0, whitespace, NoWhitespace, Or};
use wesnoth_wire::wml::{
    Name, RawString, StringKey, Tag, TagOrAttr, Text, TextDomain, ValueComponent, WString,
};
use wesnoth_wire::{Doc, Error};

fn bytes<'a>(doc: &'a Doc, key: StringKey) -> &'a [u8] {
    doc.get_bytes(key).unwrap()
}

fn as_tag(node: &TagOrAttr) -> &Tag {
    match node {
        TagOrAttr::Tag(t) => t,
        TagOrAttr::Attr(_) => panic!("expected a tag"),
    }
}

#[test]
fn parse_attr() {
    let processor = DocProcessor::new();
    let input = b"lol=\"hello\"\n".to_vec();
    let _doc = processor.parse(input).unwrap();
}

#[test]
fn parse_users() {
    let processor = DocProcessor::new();
    let users = Vec::from("[user]\navailable=\"yes\"\nforum_id=\"0\"\ngame_id=\"0\"\nlocation=\"\"\nmoderator=\"no\"\nname=\"lol\"\nregistered=\"no\"\nstatus=\"lobby\"\n[/user]\n[user]\navailable=\"yes\"\nforum_id=\"0\"\ngame_id=\"0\"\nlocation=\"\"\nmoderator=\"no\"\nname=\"haha\"\nregistered=\"no\"\nstatus=\"lobby\"\n[/user]\n");
    let _doc = processor.parse(users).unwrap();
}

#[test]
fn parse_empty_tag() {
    let processor = DocProcessor::new();
    let game_list = Vec::from("[gamelist]\n\n[/gamelist]");
    let _doc = processor.parse(game_list).unwrap();
}

#[test]
fn single_attribute_structure() {
    let doc = DocProcessor::new().parse(b"lol=\"hello\"\n".to_vec()).unwrap();
    assert_eq!(doc.top().len(), 1);
    match &doc.top()[0] {
        TagOrAttr::Attr(a) => {
            assert!(a.domain.is_none());
            assert_eq!(bytes(&doc, a.key_sequence.first.content), b"lol");
            assert!(a.key_sequence.names.is_empty());
            match a.value.first {
                ValueComponent::String(s) => {
                    assert_eq!(bytes(&doc, s.content), b"hello");
                    assert!(!s.translatable);
                }
                _ => panic!("expected a string"),
            }
            assert!(a.value.rest.is_empty());
        }
        TagOrAttr::Attr(_) | TagOrAttr::Tag(_) => panic!("expected an attribute"),
    }
}

#[test]
fn user_tag_structure() {
    let doc = DocProcessor::new()
        .parse(b"[user]\navailable=\"yes\"\nname=\"lol\"\n[/user]\n".to_vec())
        .unwrap();
    assert_eq!(doc.top().len(), 1);
    let tag = as_tag(&doc.top()[0]);
    assert_eq!(bytes(&doc, tag.name.content), b"user");
    assert_eq!(tag.content.len(), 2);
    let keys: Vec<&[u8]> = tag
        .content
        .iter()
        .map(|n| match n {
            TagOrAttr::Attr(a) => bytes(&doc, a.key_sequence.first.content),
            TagOrAttr::Tag(_) => panic!("expected attributes"),
        })
        .collect();
    assert_eq!(keys, vec![&b"available"[..], &b"name"[..]]);
}

#[test]
fn empty_tag_structure() {
    let doc = DocProcessor::new().parse(b"[gamelist]\n\n[/gamelist]".to_vec()).unwrap();
    assert_eq!(doc.top().len(), 1);
    let tag = as_tag(&doc.top()[0]);
    assert_eq!(bytes(&doc, tag.name.content), b"gamelist");
    assert!(tag.content.is_empty());
}

#[test]
fn translatable_continuation() {
    let doc = DocProcessor::new().parse(b"msg=\"hi\"+_\"there\"\n".to_vec()).unwrap();
    match &doc.top()[0] {
        TagOrAttr::Attr(a) => {
            match a.value.first {
                ValueComponent::String(s) => {
                    assert_eq!(bytes(&doc, s.content), b"hi");
                    assert!(!s.translatable);
                }
                _ => panic!("expected a string"),
            }
            assert_eq!(a.value.rest.len(), 1);
            let (domain, c) = a.value.rest[0];
            assert!(domain.is_none());
            match c {
                ValueComponent::String(s) => {
                    assert_eq!(bytes(&doc, s.content), b"there");
                    assert!(s.translatable);
                }
                _ => panic!("expected a string"),
            }
        }
        TagOrAttr::Tag(_) => panic!("expected an attribute"),
    }
}

#[test]
fn continuation_with_text_domain() {
    let text = b"msg=_\"a\"+\n#textdomain wesnoth-lib\n<<b>>\n".to_vec();
    let doc = DocProcessor::new().parse(text).unwrap();
    match &doc.top()[0] {
        TagOrAttr::Attr(a) => {
            let (domain, c) = a.value.rest[0];
            assert_eq!(bytes(&doc, domain.unwrap().name), b"wesnoth-lib");
            match c {
                ValueComponent::RawString(r) => assert_eq!(bytes(&doc, r.content), b"b"),
                _ => panic!("expected a raw string"),
            }
        }
        TagOrAttr::Tag(_) => panic!("expected an attribute"),
    }
}

#[test]
fn attribute_with_domain_and_keys() {
    let text = b"#textdomain wesnoth\nx,y=plain text\n".to_vec();
    let doc = DocProcessor::new().parse(text).unwrap();
    match &doc.top()[0] {
        TagOrAttr::Attr(a) => {
            assert_eq!(bytes(&doc, a.domain.unwrap().name), b"wesnoth");
            assert_eq!(bytes(&doc, a.key_sequence.first.content), b"x");
            assert_eq!(a.key_sequence.names.len(), 1);
            assert_eq!(bytes(&doc, a.key_sequence.names[0].content), b"y");
            match a.value.first {
                ValueComponent::Text(t) => assert_eq!(bytes(&doc, t.content), b"plain text"),
                _ => panic!("expected text"),
            }
        }
        TagOrAttr::Tag(_) => panic!("expected an attribute"),
    }
}

#[test]
fn underscore_without_string_is_text() {
    let doc = DocProcessor::new().parse(b"x=_foo\n".to_vec()).unwrap();
    match &doc.top()[0] {
        TagOrAttr::Attr(a) => match a.value.first {
            ValueComponent::Text(t) => assert_eq!(bytes(&doc, t.content), b"_foo"),
            _ => panic!("expected text"),
        },
        TagOrAttr::Tag(_) => panic!("expected an attribute"),
    }
}

#[test]
fn nested_tags() {
    let doc = DocProcessor::new().parse(b"[a]\n[b]\nk=v\n[/b]\n[/a]\n".to_vec()).unwrap();
    let a = as_tag(&doc.top()[0]);
    assert_eq!(bytes(&doc, a.name.content), b"a");
    let b = as_tag(&a.content[0]);
    assert_eq!(bytes(&doc, b.name.content), b"b");
    assert_eq!(b.content.len(), 1);
}

#[test]
fn mismatched_close_is_rejected() {
    let r = DocProcessor::new().parse(b"[a]\n[/b]\n".to_vec());
    assert_eq!(r.unwrap_err(), Error::TrailingInput);
}

#[test]
fn trailing_input_is_rejected() {
    let r = DocProcessor::new().parse(b"k=v\n=oops".to_vec());
    assert_eq!(r.unwrap_err(), Error::TrailingInput);
    let r = DocProcessor::new().parse(b"k=v".to_vec());
    assert_eq!(r.unwrap_err(), Error::TrailingInput);
}

#[test]
fn empty_document() {
    let doc = DocProcessor::new().parse(Vec::new()).unwrap();
    assert!(doc.top().is_empty());
    assert!(doc.text().is_empty());
}

#[test]
fn reset_then_parse_matches_fresh() {
    let text = b"[a]\nk=\"v\"\n[/a]\n".to_vec();
    let mut used = DocProcessor::new();
    let first = used.parse(b"x=1\n".to_vec()).unwrap();
    drop(first);
    used.reset();
    let again = used.parse(text.clone()).unwrap();
    let fresh = DocProcessor::new().parse(text).unwrap();
    assert_eq!(format!("{:?}", again), format!("{:?}", fresh));
}

#[test]
fn keys_resolve_to_matched_bytes() {
    let doc = DocProcessor::new().parse(b"[t]\nq=\"a\"\"b\"\n[/t]\n".to_vec()).unwrap();
    let t = as_tag(&doc.top()[0]);
    match &t.content[0] {
        TagOrAttr::Attr(a) => match a.value.first {
            ValueComponent::String(s) => assert_eq!(bytes(&doc, s.content), b"a\"\"b"),
            _ => panic!("expected a string"),
        },
        TagOrAttr::Tag(_) => panic!("expected an attribute"),
    }
    assert!(doc.get_bytes(StringKey { idx: 100, len: 1 }).is_none());
}

#[test]
fn tagged_prefix() {
    assert_eq!(tagged(b"[/", b"[/a]"), Ok(&b"a]"[..]));
    assert_eq!(tagged(b"[/", b"[a]"), Err(()));
    assert_eq!(tagged(b"abc", b"ab"), Err(()));
}

#[test]
fn whitespace_scan() {
    assert_eq!(whitespace(b" \t x"), Ok(&b"x"[..]));
    assert_eq!(whitespace(b"x"), Err(NoWhitespace));
}

#[test]
fn tagged_many0_skips() {
    assert_eq!(tagged_many0(Or { a: b"\n", b: b"\t" }, b"\n\t\n[a]"), &b"[a]"[..]);
    assert_eq!(tagged_many0(Or { a: b"\n", b: b"\t" }, b"x"), &b"x"[..]);
    assert_eq!(tagged_many0(&b"ab"[..], b"ababa"), &b"a"[..]);
    assert_eq!(tagged_many0(Or { a: b"ab", b: &b""[..] }, b"abb"), &b"b"[..]);
}

#[test]
fn leaf_parsers() {
    let (rest, n) = Name::parse(b"ab_1=x", 10).unwrap();
    assert_eq!(rest, b"=x");
    assert_eq!(n.content, StringKey { idx: 10, len: 4 });
    assert!(Name::parse(b"=x", 0).is_err());

    let (rest, t) = Text::parse(b"hello+x", 3).unwrap();
    assert_eq!(rest, b"+x");
    assert_eq!(t.content, StringKey { idx: 3, len: 5 });

    let (rest, s) = WString::parse(b"\"a\"\"b\"\n", 0).unwrap();
    assert_eq!(rest, b"\n");
    assert_eq!(s.content, StringKey { idx: 1, len: 4 });
    assert!(WString::parse(b"\"open", 0).is_err());

    let (rest, r) = RawString::parse(b"<<a>b>>z", 2).unwrap();
    assert_eq!(rest, b"z");
    assert_eq!(r.content, StringKey { idx: 4, len: 3 });
    assert!(RawString::parse(b"<<a>", 0).is_err());

    let (rest, d) = TextDomain::parse(b"#textdomain  wesnoth-units\nk", 0).unwrap();
    assert_eq!(rest, b"k");
    assert_eq!(d.name, StringKey { idx: 13, len: 13 });
    assert!(TextDomain::parse(b"#textdomain\n", 0).is_err());
}

#[test]
fn printer_resolves_keys() {
    let data = b"hello world";
    let p = Printer::new(data);
    assert_eq!(p.get_bytes(StringKey { idx: 6, len: 5 }).unwrap(), b"world");
    assert!(matches!(p.get_bytes(StringKey { idx: 8, len: 5 }), EffectResult::Unhandled));
}

#[test]
fn printer_resolves_strings() {
    let data = b"name=\"caf\xc3\xa9\"\xff";
    let p = Printer::new(data);
    assert_eq!(p.get_str(StringKey { idx: 6, len: 5 }).unwrap(), "caf\u{e9}");
    assert!(matches!(p.get_str(StringKey { idx: 12, len: 1 }), EffectResult::Unhandled));
    assert!(matches!(p.get_str(StringKey { idx: 12, len: 5 }), EffectResult::Unhandled));
}
