//! The WML grammar: leaf productions, which record keys into the buffer, and
//! the recursive productions that build the document tree.
use vstd::prelude::*;
use crate::lex::{
    class_fn, lemma_strip_either_byte, one_of, scan, span_len, starts_with, tagged, tagged_many0,
    whitespace, ByteClass, Or,
    GREATER, LESS, NEWLINE, PLUS, QUOTE, TAB, UNDERSCORE, COMMA, EQUALS, LBRACKET, RBRACKET, SLASH,
};

verus! {

/// A window `[idx, idx + len)` of the parsed buffer.
#[derive(Debug, Clone, Copy, PartialEq, Eq)]
pub struct StringKey {
    pub idx: usize,
    pub len: usize,
}

pub open spec fn key(idx: int, len: int) -> StringKey {
    StringKey { idx: idx as usize, len: len as usize }
}

/// The bytes that `k` stands for in `buf`.
pub open spec fn key_bytes(buf: Seq<u8>, k: StringKey) -> Seq<u8> {
    buf.subrange(k.idx as int, k.idx + k.len)
}

/// `r` agrees with the outcome `m` of a production on `input`: it fails where
/// `m` is `None`, and otherwise yields `m`'s value and the input after the
/// `m.0` bytes consumed.
pub open spec fn parsed<T, E>(r: Result<(&[u8], T), E>, input: Seq<u8>, m: Option<(int, T)>) -> bool {
    match (m, r) {
        (Some((n, v)), Ok((rest, x))) => 0 <= n <= input.len() && rest@ == input.skip(n) && x == v,
        (None, Err(_)) => true,
        _ => false,
    }
}

/// The error of [`Name::parse`]: the input does not begin with a name byte.
#[derive(Debug, Clone, Copy, PartialEq, Eq)]
pub struct EmptyName;

/// `[A-Za-z0-9_]+`
#[derive(Debug, Clone, Copy, PartialEq, Eq)]
pub struct Name {
    pub content: StringKey,
}

/// `[^+\n]*`
#[derive(Debug, Clone, Copy, PartialEq, Eq)]
pub struct Text {
    pub content: StringKey,
}

/// A double-quoted string; the key spans the bytes between the quotes, with
/// each doubled quote kept as it stands. `translatable` records a leading `_`.
#[derive(Debug, Clone, Copy, PartialEq, Eq)]
pub struct WString {
    pub content: StringKey,
    pub translatable: bool,
}

/// A `<<`...`>>` string; the key spans the bytes between the delimiters.
#[derive(Debug, Clone, Copy, PartialEq, Eq)]
pub struct RawString {
    pub content: StringKey,
    pub translatable: bool,
}

/// `#textdomain [ \t]+ [A-Za-z0-9_-]+ \n`; the key spans the domain's name.
#[derive(Debug, Clone, Copy, PartialEq, Eq)]
pub struct TextDomain {
    pub name: StringKey,
}

pub open spec fn spec_name(s: Seq<u8>, off: int) -> Option<(int, Name)> {
    let n = span_len(s, class_fn(ByteClass::Name)) as int;
    if n > 0 {
        Some((n, Name { content: key(off, n) }))
    } else {
        None
    }
}

pub open spec fn spec_text(s: Seq<u8>, off: int) -> (int, Text) {
    let n = span_len(s, class_fn(ByteClass::Text)) as int;
    (n, Text { content: key(off, n) })
}

/// `Some(n + k)` where `o` is `Some(n)`.
pub open spec fn shift(o: Option<nat>, k: nat) -> Option<nat> {
    match o {
        Some(n) => Some(n + k),
        None => None,
    }
}

/// The length of a quoted body: the bytes before the first quote that is not
/// part of a doubled quote, if there is one.
pub open spec fn quoted_len(s: Seq<u8>) -> Option<nat>
    decreases s.len(),
{
    if s.len() == 0 {
        None
    } else if s[0] != QUOTE {
        shift(quoted_len(s.skip(1)), 1)
    } else if s.len() >= 2 && s[1] == QUOTE {
        shift(quoted_len(s.skip(2)), 2)
    } else {
        Some(0)
    }
}

/// The length of a raw body: the bytes before the first `>>`, if there is one.
pub open spec fn raw_len(s: Seq<u8>) -> Option<nat>
    decreases s.len(),
{
    if s.len() < 2 {
        None
    } else if s[0] == GREATER && s[1] == GREATER {
        Some(0)
    } else {
        shift(raw_len(s.skip(1)), 1)
    }
}

pub open spec fn spec_wstring(s: Seq<u8>, off: int) -> Option<(int, WString)> {
    if s.len() > 0 && s[0] == QUOTE {
        match quoted_len(s.skip(1)) {
            Some(n) => Some(((n + 2) as int, WString { content: key(off + 1, n as int), translatable: false })),
            None => None,
        }
    } else {
        None
    }
}

pub open spec fn spec_raw_string(s: Seq<u8>, off: int) -> Option<(int, RawString)> {
    if s.len() >= 2 && s[0] == LESS && s[1] == LESS {
        match raw_len(s.skip(2)) {
            Some(n) => Some(((n + 4) as int, RawString { content: key(off + 2, n as int), translatable: false })),
            None => None,
        }
    } else {
        None
    }
}

/// The bytes of `#textdomain`.
pub open spec fn textdomain_keyword() -> Seq<u8> {
    seq![35u8, 116, 101, 120, 116, 100, 111, 109, 97, 105, 110]
}

pub open spec fn spec_text_domain(s: Seq<u8>, off: int) -> Option<(int, TextDomain)> {
    let k = textdomain_keyword().len() as int;
    let w = span_len(s.skip(k), class_fn(ByteClass::Blank)) as int;
    let n = span_len(s.skip(k + w), class_fn(ByteClass::Domain)) as int;
    if starts_with(s, textdomain_keyword()) && w > 0 && n > 0 && k + w + n < s.len()
        && s[k + w + n] == NEWLINE {
        Some((k + w + n + 1, TextDomain { name: key(off + k + w, n) }))
    } else {
        None
    }
}

impl Name {
    pub fn parse<'a>(input: &'a [u8], offset: usize) -> (r: Result<(&'a [u8], Name), EmptyName>)
        requires
            offset + input@.len() <= usize::MAX,
        ensures
            parsed(r, input@, spec_name(input@, offset as int)),
    {
        let n = scan(input, ByteClass::Name);
        if n > 0 {
            Ok((&input[n..input.len()], Name { content: StringKey { idx: offset, len: n } }))
        } else {
            Err(EmptyName)
        }
    }
}

impl Text {
    pub fn parse<'a>(input: &'a [u8], offset: usize) -> (r: Result<(&'a [u8], Text), ()>)
        requires
            offset + input@.len() <= usize::MAX,
        ensures
            parsed(r, input@, Some(spec_text(input@, offset as int))),
    {
        let n = scan(input, ByteClass::Text);
        Ok((&input[n..input.len()], Text { content: StringKey { idx: offset, len: n } }))
    }
}

impl WString {
    pub fn parse<'a>(input: &'a [u8], offset: usize) -> (r: Result<(&'a [u8], WString), ()>)
        requires
            offset + input@.len() <= usize::MAX,
        ensures
            parsed(r, input@, spec_wstring(input@, offset as int)),
    {
        let quote: [u8; 1] = [QUOTE];
        let body = match tagged(&quote, input) {
            Ok(body) => body,
            Err(()) => {
                assert(!(input@.len() > 0 && input@[0] == QUOTE)) by {
                    if input@.len() > 0 && input@[0] == QUOTE {
                        assert(input@.subrange(0, 1) =~= quote@);
                    }
                }
                return Err(());
            },
        };
        assert(input@.subrange(0, 1)[0] == quote@[0]);
        let mut i: usize = 0;
        assert(body@.skip(0) =~= body@);
        while i < body.len()
            invariant
                body@ == input@.skip(1),
                body@.len() + 1 == input@.len(),
                input@[0] == QUOTE,
                offset + input@.len() <= usize::MAX,
                0 <= i <= body@.len(),
                quoted_len(body@) == shift(quoted_len(body@.skip(i as int)), i as nat),
            decreases body@.len() - i,
        {
            assert(body@.skip(i as int).skip(1) =~= body@.skip(i + 1));
            if body[i] != QUOTE {
                i = i + 1;
            } else if i + 1 < body.len() && body[i + 1] == QUOTE {
                assert(body@.skip(i as int).skip(2) =~= body@.skip(i + 2));
                i = i + 2;
            } else {
                let content = StringKey { idx: offset + 1, len: i };
                assert(body@.skip(i as int)[0] == QUOTE);
                assert(body@.skip(i as int).len() >= 2 ==> body@.skip(i as int)[1] != QUOTE);
                assert(quoted_len(body@.skip(i as int)) == Some(0nat));
                assert(input@.skip(i + 2) =~= body@.subrange(i + 1, body@.len() as int));

                return Ok((&body[i + 1..body.len()], WString { content, translatable: false }));
            }
        }
        assert(quoted_len(body@.skip(i as int)) is None);
        Err(())
    }
}

impl RawString {
    pub fn parse<'a>(input: &'a [u8], offset: usize) -> (r: Result<(&'a [u8], RawString), ()>)
        requires
            offset + input@.len() <= usize::MAX,
        ensures
            parsed(r, input@, spec_raw_string(input@, offset as int)),
    {
        let open: [u8; 2] = [LESS, LESS];
        let body = match tagged(&open, input) {
            Ok(body) => body,
            Err(()) => {
                assert(!(input@.len() >= 2 && input@[0] == LESS && input@[1] == LESS)) by {
                    if input@.len() >= 2 && input@[0] == LESS && input@[1] == LESS {
                        assert(input@.subrange(0, 2) =~= open@);
                    }
                }
                return Err(());
            },
        };
        assert(input@.subrange(0, 2)[0] == open@[0]);
        assert(input@.subrange(0, 2)[1] == open@[1]);
        let mut i: usize = 0;
        assert(body@.skip(0) =~= body@);
        while i + 1 < body.len()
            invariant
                body@ == input@.skip(2),
                body@.len() + 2 == input@.len(),
                input@[0] == LESS && input@[1] == LESS,
                offset + input@.len() <= usize::MAX,
                0 <= i <= body@.len(),
                raw_len(body@) == shift(raw_len(body@.skip(i as int)), i as nat),
            decreases body@.len() - i,
        {
            if body[i] == GREATER && body[i + 1] == GREATER {
                let content = StringKey { idx: offset + 2, len: i };
                assert(body@.skip(i as int)[0] == GREATER);
                assert(body@.skip(i as int)[1] == GREATER);
                assert(raw_len(body@.skip(i as int)) == Some(0nat));
                assert(input@.skip(i + 4) =~= body@.subrange(i + 2, body@.len() as int));
                return Ok((&body[i + 2..body.len()], RawString { content, translatable: false }));
            }
            assert(body@.skip(i as int).skip(1) =~= body@.skip(i + 1));
            i = i + 1;
        }
        assert(raw_len(body@.skip(i as int)) is None);
        Err(())
    }
}

impl TextDomain {
    pub fn parse<'a>(input: &'a [u8], offset: usize) -> (r: Result<(&'a [u8], TextDomain), ()>)
        requires
            offset + input@.len() <= usize::MAX,
        ensures
            parsed(r, input@, spec_text_domain(input@, offset as int)),
    {
        let keyword: [u8; 11] = [35, 116, 101, 120, 116, 100, 111, 109, 97, 105, 110];
        assert(keyword@ =~= textdomain_keyword());
        let rest = match tagged(&keyword, input) {
            Ok(rest) => rest,
            Err(()) => return Err(()),
        };
        let name_start = match whitespace(rest) {
            Ok(r) => r,
            Err(_) => return Err(()),
        };
        let w = rest.len() - name_start.len();
        let n = scan(name_start, ByteClass::Domain);
        assert(input@.skip(11).skip(w as int) =~= input@.skip(11 + w));
        if n == 0 || n >= name_start.len() || name_start[n] != NEWLINE {
            return Err(());
        }
        assert(input@.skip(11 + w)[n as int] == input@[11 + w + n]);
        assert(input@.skip(11 + w + n + 1) =~= name_start@.skip(n + 1));
        Ok((
            &name_start[n + 1..name_start.len()],
            TextDomain { name: StringKey { idx: offset + 11 + w, len: n } },
        ))
    }
}


/// `'_'? string | '_'? raw_string | text`, tried in that order.
#[derive(Debug, Clone, Copy, PartialEq, Eq)]
pub enum ValueComponent {
    Text(Text),
    String(WString),
    RawString(RawString),
}

#[verifier::opaque]
pub open spec fn spec_component(s: Seq<u8>, off: int) -> (int, ValueComponent) {
    let u: int = if s.len() > 0 && s[0] == UNDERSCORE { 1 } else { 0 };
    match spec_wstring(s.skip(u), off + u) {
        Some((n, w)) => (u + n, ValueComponent::String(WString { content: w.content, translatable: u == 1 })),
        None => match spec_raw_string(s.skip(u), off + u) {
            Some((n, w)) => (u + n, ValueComponent::RawString(RawString { content: w.content, translatable: u == 1 })),
            None => (spec_text(s, off).0, ValueComponent::Text(spec_text(s, off).1)),
        },
    }
}

impl ValueComponent {
    pub fn parse<'a>(input: &'a [u8], offset: usize) -> (r: Result<(&'a [u8], ValueComponent), ()>)
        requires
            offset + input@.len() <= usize::MAX,
        ensures
            parsed(r, input@, Some(spec_component(input@, offset as int))),
    {
        reveal(spec_component);
        let underscored = input.len() > 0 && input[0] == UNDERSCORE;
        let u: usize = if underscored { 1 } else { 0 };
        let body = &input[u..input.len()];
        match WString::parse(body, offset + u) {
            Ok((rest, w)) => {
                let ghost n = spec_wstring(body@, offset + u).unwrap().0;
                assert(input@.skip(u as int).skip(n) =~= input@.skip(u + n));
                return Ok((rest, ValueComponent::String(WString { content: w.content, translatable: underscored })));
            },
            Err(()) => {},
        }
        match RawString::parse(body, offset + u) {
            Ok((rest, w)) => {
                let ghost n = spec_raw_string(body@, offset + u).unwrap().0;
                assert(input@.skip(u as int).skip(n) =~= input@.skip(u + n));
                return Ok((rest, ValueComponent::RawString(RawString { content: w.content, translatable: underscored })));
            },
            Err(()) => {},
        }
        match Text::parse(input, offset) {
            Ok((rest, t)) => Ok((rest, ValueComponent::Text(t))),
            Err(()) => Err(()),
        }
    }
}


/// `done` followed by what `o` yields, counting `used` bytes already consumed.
pub open spec fn extend<T>(done: Seq<T>, used: int, o: Option<(int, Seq<T>)>) -> Option<(int, Seq<T>)> {
    match o {
        Some((m, rest)) => Some((used + m, done + rest)),
        None => None,
    }
}

proof fn lemma_extend_empty<T>(o: Option<(int, Seq<T>)>)
    ensures
        extend(Seq::empty(), 0, o) == o,
{
    if o is Some {
        assert(Seq::<T>::empty() + o.unwrap().1 =~= o.unwrap().1);
    }
}

/// `(',' wml_name)*`: fails where a comma is not followed by a name.
pub open spec fn spec_more_names(s: Seq<u8>, off: int) -> Option<(int, Seq<Name>)>
    decreases s.len(),
{
    if s.len() > 0 && s[0] == COMMA {
        match spec_name(s.skip(1), off + 1) {
            Some((n, name)) => if 0 < n && n < s.len() {
                extend(seq![name], 1 + n, spec_more_names(s.skip(1 + n), off + 1 + n))
            } else {
                None
            },
            None => None,
        }
    } else {
        Some((0, Seq::empty()))
    }
}

/// `wml_key_sequence := wml_name (',' wml_name)*`
#[derive(Debug, PartialEq, Eq)]
pub struct KeySequence {
    pub first: Name,
    pub names: Vec<Name>,
}

pub struct KeySequenceModel {
    pub first: Name,
    pub names: Seq<Name>,
}

impl View for KeySequence {
    type V = KeySequenceModel;

    open spec fn view(&self) -> KeySequenceModel {
        KeySequenceModel { first: self.first, names: self.names@ }
    }
}

pub open spec fn spec_keys(s: Seq<u8>, off: int) -> Option<(int, KeySequenceModel)> {
    match spec_name(s, off) {
        Some((n, first)) => match spec_more_names(s.skip(n), off + n) {
            Some((m, names)) => Some((n + m, KeySequenceModel { first, names })),
            None => None,
        },
        None => None,
    }
}

/// Like [`parsed`], for a result whose view the production's outcome gives.
pub open spec fn parsed_view<T: View, E>(r: Result<(&[u8], T), E>, input: Seq<u8>, m: Option<(int, T::V)>) -> bool {
    match (m, r) {
        (Some((n, v)), Ok((rest, x))) => 0 <= n <= input.len() && rest@ == input.skip(n) && x@ == v,
        (None, Err(_)) => true,
        _ => false,
    }
}

impl KeySequence {
    pub fn parse<'a>(input: &'a [u8], offset: usize) -> (r: Result<(&'a [u8], KeySequence), ()>)
        requires
            offset + input@.len() <= usize::MAX,
        ensures
            parsed_view(r, input@, spec_keys(input@, offset as int)),
    {
        let (rest, first) = match Name::parse(input, offset) {
            Ok(p) => p,
            Err(_) => return Err(()),
        };
        let n0 = input.len() - rest.len();
        let mut cursor = rest;
        let mut used: usize = 0;
        let mut names: Vec<Name> = Vec::new();
        proof {
            lemma_extend_empty(spec_more_names(rest@, offset + n0));
            assert(rest@.skip(0) =~= rest@);
        }
        loop
            invariant
                offset + input@.len() <= usize::MAX,
                rest@ == input@.skip(n0 as int),
                n0 + rest@.len() == input@.len(),
                spec_name(input@, offset as int) == Some((n0 as int, first)),
                used + cursor@.len() == rest@.len(),
                cursor@ == rest@.skip(used as int),
                spec_more_names(rest@, offset + n0) == extend(names@, used as int, spec_more_names(cursor@, offset + n0 + used)),
            ensures
                cursor@.len() == 0 || cursor@[0] != COMMA,
            decreases cursor@.len(),
        {
            if cursor.len() == 0 || cursor[0] != COMMA {
                break;
            }
            let after = &cursor[1..cursor.len()];
            assert(after@ =~= cursor@.skip(1));
            let (next, name) = match Name::parse(after, offset + n0 + used + 1) {
                Ok(p) => p,
                Err(_) => return Err(()),
            };
            let n = after.len() - next.len();
            proof {
                assert(after@ =~= cursor@.skip(1));
                assert(cursor@.skip(1 + n) =~= next@);
                assert(rest@.skip(used + 1 + n) =~= next@);
                let tail = spec_more_names(next@, offset + n0 + used + 1 + n);
                if tail is Some {
                    assert(names@.push(name) + tail.unwrap().1 =~= names@ + (seq![name] + tail.unwrap().1));
                }
            }
            names.push(name);
            cursor = next;
            used = used + 1 + n;
        }
        proof {
            assert(names@ + Seq::<Name>::empty() =~= names@);
            assert(input@.skip(n0 + used) =~= cursor@);
        }
        Ok((cursor, KeySequence { first, names }))
    }
}


/// A continuation of a value: `'+' ('\n' textdomain?)? value_component`.
pub type Continuation = (Option<TextDomain>, ValueComponent);

/// The `+`, optional line break and optional text domain that open a
/// continuation at the start of `s`: the bytes they take and the domain.
pub open spec fn spec_joiner(s: Seq<u8>, off: int) -> (int, Option<TextDomain>) {
    if s.len() > 1 && s[1] == NEWLINE {
        match spec_text_domain(s.skip(2), off + 2) {
            Some((d, domain)) => (2 + d, Some(domain)),
            None => (2, None),
        }
    } else {
        (1, None)
    }
}

/// One continuation at the start of `s`, which begins with `+`: the bytes
/// it takes and what it holds.
#[verifier::opaque]
pub open spec fn spec_continuation(s: Seq<u8>, off: int) -> (int, Continuation) {
    let (k, domain) = spec_joiner(s, off);
    let (m, c) = spec_component(s.skip(k), off + k);
    (k + m, (domain, c))
}

/// The continuations that follow a value's first component.
pub open spec fn spec_continuations(s: Seq<u8>, off: int) -> (int, Seq<Continuation>)
    decreases s.len(),
{
    if s.len() > 0 && s[0] == PLUS {
        let (n, c) = spec_continuation(s, off);
        if 0 < n <= s.len() {
            let (e, rest) = spec_continuations(s.skip(n), off + n);
            (n + e, seq![c] + rest)
        } else {
            (0, Seq::empty())
        }
    } else {
        (0, Seq::empty())
    }
}

fn parse_continuation<'a>(input: &'a [u8], offset: usize) -> (r: Result<(&'a [u8], Continuation), ()>)
    requires
        offset + input@.len() <= usize::MAX,
        input@.len() > 0,
        input@[0] == PLUS,
    ensures
        0 < spec_continuation(input@, offset as int).0,
        parsed(r, input@, Some(spec_continuation(input@, offset as int))),
{
    reveal(spec_continuation);
    let mut k: usize = 1;
    let mut domain: Option<TextDomain> = None;
    if input.len() > 1 && input[1] == NEWLINE {
        k = 2;
        let after = &input[2..input.len()];
        assert(after@ =~= input@.skip(2));
        match TextDomain::parse(after, offset + 2) {
            Ok((next, d)) => {
                k = input.len() - next.len();
                domain = Some(d);
            },
            Err(()) => {},
        }
    }
    assert(spec_joiner(input@, offset as int) == (k as int, domain));
    let body = &input[k..input.len()];
    assert(body@ =~= input@.skip(k as int));
    let (next, c) = match ValueComponent::parse(body, offset + k) {
        Ok(p) => p,
        Err(()) => return Err(()),
    };
    let m = body.len() - next.len();
    assert(input@.skip(k + m) =~= next@);
    Ok((next, (domain, c)))
}

/// `wml_value := value_component ('+' ('\n' textdomain?)? value_component)*`
#[derive(Debug, PartialEq, Eq)]
pub struct Value {
    pub first: ValueComponent,
    pub rest: Vec<Continuation>,
}

pub struct ValueModel {
    pub first: ValueComponent,
    pub rest: Seq<Continuation>,
}

impl View for Value {
    type V = ValueModel;

    open spec fn view(&self) -> ValueModel {
        ValueModel { first: self.first, rest: self.rest@ }
    }
}

pub open spec fn spec_value(s: Seq<u8>, off: int) -> (int, ValueModel) {
    let (n, first) = spec_component(s, off);
    let (e, rest) = spec_continuations(s.skip(n), off + n);
    (n + e, ValueModel { first, rest })
}

impl Value {
    pub fn parse<'a>(input: &'a [u8], offset: usize) -> (r: Result<(&'a [u8], Value), ()>)
        requires
            offset + input@.len() <= usize::MAX,
        ensures
            parsed_view(r, input@, Some(spec_value(input@, offset as int))),
    {
        let (rest, first) = match ValueComponent::parse(input, offset) {
            Ok(p) => p,
            Err(()) => return Err(()),
        };
        let n0 = input.len() - rest.len();
        let mut cursor = rest;
        let mut used: usize = 0;
        let mut conts: Vec<Continuation> = Vec::new();
        proof {
            let t = spec_continuations(rest@, offset + n0);
            assert(Seq::<Continuation>::empty() + t.1 =~= t.1);
            assert(rest@.skip(0) =~= rest@);
        }
        loop
            invariant
                offset + input@.len() <= usize::MAX,
                rest@ == input@.skip(n0 as int),
                n0 + rest@.len() == input@.len(),
                spec_component(input@, offset as int) == (n0 as int, first),
                used + cursor@.len() == rest@.len(),
                cursor@ == rest@.skip(used as int),
                spec_continuations(rest@, offset + n0).0 == used + spec_continuations(cursor@, offset + n0 + used).0,
                spec_continuations(rest@, offset + n0).1 == conts@ + spec_continuations(cursor@, offset + n0 + used).1,
            ensures
                cursor@.len() == 0 || cursor@[0] != PLUS,
            decreases cursor@.len(),
        {
            if cursor.len() == 0 || cursor[0] != PLUS {
                break;
            }
            let (next, c) = match parse_continuation(cursor, offset + n0 + used) {
                Ok(p) => p,
                Err(()) => return Err(()),
            };
            let n = cursor.len() - next.len();
            proof {
                assert(rest@.skip(used + n) =~= next@);
                let tail = spec_continuations(next@, offset + n0 + used + n);
                assert(conts@.push(c) + tail.1 =~= conts@ + (seq![c] + tail.1));
            }
            conts.push(c);
            cursor = next;
            used = used + n;
        }
        proof {
            assert(conts@ + Seq::<Continuation>::empty() =~= conts@);
            assert(input@.skip(n0 + used) =~= cursor@);
        }
        Ok((cursor, Value { first, rest: conts }))
    }
}


/// `wml_attribute := textdomain? wml_key_sequence '=' wml_value '\n'`
#[derive(Debug, PartialEq, Eq)]
pub struct Attribute {
    pub domain: Option<TextDomain>,
    pub key_sequence: KeySequence,
    pub value: Value,
}

pub struct AttributeModel {
    pub domain: Option<TextDomain>,
    pub keys: KeySequenceModel,
    pub value: ValueModel,
}

impl View for Attribute {
    type V = AttributeModel;

    open spec fn view(&self) -> AttributeModel {
        AttributeModel { domain: self.domain, keys: self.key_sequence@, value: self.value@ }
    }
}

/// The optional text domain that opens an attribute: the bytes it takes.
pub open spec fn spec_opt_domain(s: Seq<u8>, off: int) -> (int, Option<TextDomain>) {
    match spec_text_domain(s, off) {
        Some((d, domain)) => (d, Some(domain)),
        None => (0, None),
    }
}

#[verifier::opaque]
pub open spec fn spec_attribute(s: Seq<u8>, off: int) -> Option<(int, AttributeModel)> {
    let (d, domain) = spec_opt_domain(s, off);
    match spec_keys(s.skip(d), off + d) {
        Some((k, keys)) => {
            let p = d + k;
            if p < s.len() && s[p] == EQUALS {
                let (v, value) = spec_value(s.skip(p + 1), off + p + 1);
                let q = p + 1 + v;
                if 0 <= q < s.len() && s[q] == NEWLINE {
                    Some((q + 1, AttributeModel { domain, keys, value }))
                } else {
                    None
                }
            } else {
                None
            }
        },
        None => None,
    }
}

impl Attribute {
    #[verifier::rlimit(30)]
    pub fn parse<'a>(input: &'a [u8], offset: usize) -> (r: Result<(&'a [u8], Attribute), ()>)
        requires
            offset + input@.len() <= usize::MAX,
        ensures
            parsed_view(r, input@, spec_attribute(input@, offset as int)),
            r is Ok ==> r->Ok_0.0@.len() < input@.len(),
    {
        reveal(spec_attribute);
        let (rest, domain) = match TextDomain::parse(input, offset) {
            Ok((rest, d)) => (rest, Some(d)),
            Err(()) => (input, None),
        };
        let d = input.len() - rest.len();
        assert(spec_opt_domain(input@, offset as int) == (d as int, domain));
        assert(rest@ =~= input@.skip(d as int));
        let (rest, key_sequence) = match KeySequence::parse(rest, offset + d) {
            Ok(p) => p,
            Err(()) => return Err(()),
        };
        let p = input.len() - rest.len();
        assert(input@.skip(p as int) =~= rest@);
        if rest.len() == 0 || rest[0] != EQUALS {
            return Err(());
        }
        let after = &rest[1..rest.len()];
        assert(after@ =~= input@.skip(p + 1));
        let (rest, value) = match Value::parse(after, offset + p + 1) {
            Ok(p) => p,
            Err(()) => return Err(()),
        };
        let q = input.len() - rest.len();
        assert(input@.skip(q as int) =~= rest@);
        if rest.len() == 0 || rest[0] != NEWLINE {
            return Err(());
        }
        assert(input@.skip(q + 1) =~= rest@.skip(1));
        Ok((&rest[1..rest.len()], Attribute { domain, key_sequence, value }))
    }
}


/// `wml_tag := '[' wml_name ']' wml_doc '[/' wml_name ']'`, where the two
/// names are the same bytes; `close` is the key of the second.
#[derive(Debug)]
pub struct Tag {
    pub name: Name,
    pub content: Vec<TagOrAttr>,
    pub close: Name,
}

/// `wml_tag | wml_attribute`
#[derive(Debug)]
pub enum TagOrAttr {
    Tag(Tag),
    Attr(Attribute),
}

pub struct TagModel {
    pub name: Name,
    pub content: Seq<NodeModel>,
    pub close: Name,
}

pub enum NodeModel {
    Tag(TagModel),
    Attr(AttributeModel),
}

pub open spec fn node_model(n: TagOrAttr) -> NodeModel
    decreases n,
{
    match n {
        TagOrAttr::Tag(t) => NodeModel::Tag(TagModel { name: t.name, content: nodes_model(t.content@), close: t.close }),
        TagOrAttr::Attr(a) => NodeModel::Attr(a@),
    }
}

pub open spec fn nodes_model(s: Seq<TagOrAttr>) -> Seq<NodeModel>
    decreases s,
{
    if s.len() == 0 {
        Seq::empty()
    } else {
        nodes_model(s.subrange(0, s.len() - 1)).push(node_model(s[s.len() - 1]))
    }
}


impl View for Tag {
    type V = TagModel;

    open spec fn view(&self) -> TagModel {
        TagModel { name: self.name, content: nodes_model(self.content@), close: self.close }
    }
}

impl View for TagOrAttr {
    type V = NodeModel;

    open spec fn view(&self) -> NodeModel {
        node_model(*self)
    }
}

/// The bytes skipped around the children of a tag: `\n` and `\t`.
pub open spec fn tag_skip() -> Seq<u8> {
    seq![NEWLINE, TAB]
}

pub open spec fn skip_len(s: Seq<u8>) -> int {
    span_len(s, one_of(tag_skip())) as int
}

/// Skip the `\n` and `\t` bytes at the front of `input`.
fn skip_newlines_tabs<'a>(input: &'a [u8]) -> (r: &'a [u8])
    ensures
        skip_len(input@) <= input@.len(),
        r@ == input@.skip(skip_len(input@)),
{
    let newline: [u8; 1] = [NEWLINE];
    let tab: [u8; 1] = [TAB];
    let r = tagged_many0(Or { a: &newline, b: &tab }, input);
    proof {
        let sep = Or { a: &newline, b: &tab };
        lemma_strip_either_byte(sep, input@);
        assert(seq![sep.a@[0], sep.b@[0]] =~= tag_skip());
    }
    r
}

pub open spec fn spec_tag(s: Seq<u8>, off: int) -> Option<(int, TagModel)>
    decreases s.len(), 0int,
{
    if s.len() > 0 && s[0] == LBRACKET {
        match spec_name(s.skip(1), off + 1) {
            Some((n, name)) => {
                let b = 1 + n;
                let p = b + 1 + skip_len(s.skip(b + 1));
                if b < s.len() && s[b] == RBRACKET && p <= s.len() {
                    let (c, content) = spec_children(s.skip(p), off + p);
                    let q = p + c;
                    if 0 <= q && q + 2 <= s.len() && s[q] == LBRACKET && s[q + 1] == SLASH {
                        match spec_name(s.skip(q + 2), off + q + 2) {
                            Some((n2, close)) => {
                                let e = q + 2 + n2;
                                if e < s.len() && s[e] == RBRACKET && s.subrange(1, b) == s.subrange(q + 2, e) {
                                    Some((e + 1 + skip_len(s.skip(e + 1)), TagModel { name, content, close }))
                                } else {
                                    None
                                }
                            },
                            None => None,
                        }
                    } else {
                        None
                    }
                } else {
                    None
                }
            },
            None => None,
        }
    } else {
        None
    }
}

pub open spec fn spec_node(s: Seq<u8>, off: int) -> Option<(int, NodeModel)>
    decreases s.len(), 1int,
{
    match spec_tag(s, off) {
        Some((n, t)) => Some((n, NodeModel::Tag(t))),
        None => match spec_attribute(s, off) {
            Some((n, a)) => Some((n, NodeModel::Attr(a))),
            None => None,
        },
    }
}

/// The children of a tag, each preceded by a skip of `\n` and `\t`; the
/// bytes taken include the skip in front of the first byte that starts no
/// child.
pub open spec fn spec_children(s: Seq<u8>, off: int) -> (int, Seq<NodeModel>)
    decreases s.len(), 2int,
{
    let k = skip_len(s);
    if k <= s.len() {
        match spec_node(s.skip(k), off + k) {
            Some((m, node)) => if 0 < m && k + m <= s.len() {
                let (e, rest) = spec_children(s.skip(k + m), off + k + m);
                (k + m + e, seq![node] + rest)
            } else {
                (k, Seq::empty())
            },
            None => (k, Seq::empty()),
        }
    } else {
        (0, Seq::empty())
    }
}


/// Whether two byte windows hold the same bytes.
pub fn bytes_equal(a: &[u8], b: &[u8]) -> (r: bool)
    ensures
        r == (a@ == b@),
{
    if a.len() != b.len() {
        return false;
    }
    let mut i: usize = 0;
    while i < a.len()
        invariant
            a@.len() == b@.len(),
            0 <= i <= a@.len(),
            forall|j: int| 0 <= j < i ==> a@[j] == b@[j],
        decreases a@.len() - i,
    {
        if a[i] != b[i] {
            return false;
        }
        i = i + 1;
    }
    assert(a@ =~= b@);
    true
}

impl Tag {
    #[verifier::rlimit(40)]
    pub fn parse<'a>(input: &'a [u8], offset: usize) -> (r: Result<(&'a [u8], Tag), ()>)
        requires
            offset + input@.len() <= usize::MAX,
        ensures
            parsed_view(r, input@, spec_tag(input@, offset as int)),
            r is Ok ==> r->Ok_0.0@.len() < input@.len(),
        decreases input@.len(), 0int,
    {
        if input.len() == 0 || input[0] != LBRACKET {
            return Err(());
        }
        let after_open = &input[1..input.len()];
        assert(after_open@ =~= input@.skip(1));
        let (rest, name) = match Name::parse(after_open, offset + 1) {
            Ok(p) => p,
            Err(_) => return Err(()),
        };
        let b = input.len() - rest.len();
        assert(rest@ =~= input@.skip(b as int));
        if rest.len() == 0 || rest[0] != RBRACKET {
            return Err(());
        }
        let after_name = &rest[1..rest.len()];
        assert(after_name@ =~= input@.skip(b + 1));
        let start = skip_newlines_tabs(after_name);
        let p = input.len() - start.len();
        assert(start@ =~= input@.skip(p as int));
        let (close, content) = parse_children(start, offset + p);
        let q = input.len() - close.len();
        assert(close@ =~= input@.skip(q as int));
        if close.len() < 2 || close[0] != LBRACKET || close[1] != SLASH {
            return Err(());
        }
        let after_slash = &close[2..close.len()];
        assert(after_slash@ =~= input@.skip(q + 2));
        let (rest, close) = match Name::parse(after_slash, offset + q + 2) {
            Ok(p) => p,
            Err(_) => return Err(()),
        };
        let e = input.len() - rest.len();
        if !bytes_equal(&input[1..b], &input[q + 2..e]) {
            return Err(());
        }
        assert(rest@ =~= input@.skip(e as int));
        if rest.len() == 0 || rest[0] != RBRACKET {
            return Err(());
        }
        let after_close = &rest[1..rest.len()];
        assert(after_close@ =~= input@.skip(e + 1));
        let end = skip_newlines_tabs(after_close);
        let ghost fin = e + 1 + skip_len(input@.skip(e + 1));
        assert(end@ =~= input@.skip(fin));
        Ok((end, Tag { name, content, close }))
    }
}

/// The children of a tag and the input after them.
fn parse_children<'a>(input: &'a [u8], offset: usize) -> (r: (&'a [u8], Vec<TagOrAttr>))
    requires
        offset + input@.len() <= usize::MAX,
    ensures
        0 <= spec_children(input@, offset as int).0 <= input@.len(),
        r.0@ == input@.skip(spec_children(input@, offset as int).0),
        nodes_model(r.1@) == spec_children(input@, offset as int).1,
    decreases input@.len(), 2int,
{
    let ghost s0 = input@;
    let ghost off0 = offset as int;
    let mut cursor = input;
    let mut used: usize = 0;
    let mut content: Vec<TagOrAttr> = Vec::new();
    let mut total: usize = 0;
    proof {
        let t = spec_children(s0, off0);
        assert(nodes_model(content@) =~= Seq::<NodeModel>::empty());
        assert(Seq::<NodeModel>::empty() + t.1 =~= t.1);
        assert(s0.skip(0) =~= s0);
    }
    loop
        invariant
            offset + input@.len() <= usize::MAX,
            s0 == input@,
            off0 == offset,
            used + cursor@.len() == s0.len(),
            cursor@ == s0.skip(used as int),
            spec_children(s0, off0).0 == used + spec_children(cursor@, off0 + used).0,
            spec_children(s0, off0).1 == nodes_model(content@) + spec_children(cursor@, off0 + used).1,
        ensures
            total <= s0.len(),
            spec_children(s0, off0) == (total as int, nodes_model(content@)),
        decreases cursor@.len(),
    {
        let skipped = skip_newlines_tabs(cursor);
        let k = cursor.len() - skipped.len();
        assert(skipped@ =~= cursor@.skip(k as int));
        match TagOrAttr::parse(skipped, offset + used + k) {
            Ok((next, node)) => {
                let m = skipped.len() - next.len();
                proof {
                    assert(cursor@.skip(k + m) =~= next@);
                    assert(s0.skip(used + k + m) =~= next@);
                    let tail = spec_children(next@, off0 + used + k + m);
                    assert(content@.push(node).subrange(0, content@.len() as int) =~= content@);
                    assert(nodes_model(content@.push(node)) == nodes_model(content@).push(node@));
                    assert(nodes_model(content@).push(node@) + tail.1 =~= nodes_model(content@) + (seq![node@] + tail.1));
                }
                content.push(node);
                cursor = next;
                used = used + k + m;
            },
            Err(()) => {
                total = used + k;
                proof {
                    assert(nodes_model(content@) + Seq::<NodeModel>::empty() =~= nodes_model(content@));
                }
                break;
            },
        }
    }
    assert(input@.skip(total as int) =~= s0.skip(total as int));
    (&input[total..input.len()], content)
}

impl TagOrAttr {
    pub fn parse<'a>(input: &'a [u8], offset: usize) -> (r: Result<(&'a [u8], TagOrAttr), ()>)
        requires
            offset + input@.len() <= usize::MAX,
        ensures
            parsed_view(r, input@, spec_node(input@, offset as int)),
            r is Ok ==> r->Ok_0.0@.len() < input@.len(),
        decreases input@.len(), 1int,
    {
        match Tag::parse(input, offset) {
            Ok((rest, tag)) => Ok((rest, TagOrAttr::Tag(tag))),
            Err(()) => match Attribute::parse(input, offset) {
                Ok((rest, attr)) => Ok((rest, TagOrAttr::Attr(attr))),
                Err(()) => Err(()),
            },
        }
    }
}

} // verus!
