//! Lexing primitives of the WML grammar: prefixes, byte classes and the leaf
//! productions whose results are keys into the parsed buffer.
use vstd::prelude::*;

verus! {

pub const QUOTE: u8 = 34;
pub const PLUS: u8 = 43;
pub const NEWLINE: u8 = 10;
pub const TAB: u8 = 9;
pub const SPACE: u8 = 32;
pub const UNDERSCORE: u8 = 95;
pub const DASH: u8 = 45;
pub const LESS: u8 = 60;
pub const GREATER: u8 = 62;
pub const COMMA: u8 = 44;
pub const EQUALS: u8 = 61;
pub const LBRACKET: u8 = 91;
pub const RBRACKET: u8 = 93;
pub const SLASH: u8 = 47;

/// Whether `s` begins with `t`.
pub open spec fn starts_with(s: Seq<u8>, t: Seq<u8>) -> bool {
    t.len() <= s.len() && s.subrange(0, t.len() as int) == t
}

/// `[A-Za-z0-9_]`
pub open spec fn is_name_byte(b: u8) -> bool {
    (97 <= b && b <= 122) || (65 <= b && b <= 90) || (48 <= b && b <= 57) || b == UNDERSCORE
}

/// `[A-Za-z0-9_-]`
pub open spec fn is_domain_byte(b: u8) -> bool {
    is_name_byte(b) || b == DASH
}

/// `[ \t]`
pub open spec fn is_blank(b: u8) -> bool {
    b == SPACE || b == TAB
}

/// `[^+\n]`
pub open spec fn is_text_byte(b: u8) -> bool {
    b != PLUS && b != NEWLINE
}

/// The byte classes that the scanners of this module recognise.
#[derive(Clone, Copy, Debug, PartialEq, Eq)]
pub enum ByteClass {
    Name,
    Domain,
    Blank,
    Text,
}

pub open spec fn class_fn(c: ByteClass) -> spec_fn(u8) -> bool {
    match c {
        ByteClass::Name => |b: u8| is_name_byte(b),
        ByteClass::Domain => |b: u8| is_domain_byte(b),
        ByteClass::Blank => |b: u8| is_blank(b),
        ByteClass::Text => |b: u8| is_text_byte(b),
    }
}

/// Membership in the bytes of `set`.
pub open spec fn one_of(set: Seq<u8>) -> spec_fn(u8) -> bool {
    |b: u8| set.contains(b)
}

/// The length of the longest prefix of `s` whose bytes all satisfy `class`.
pub open spec fn span_len(s: Seq<u8>, class: spec_fn(u8) -> bool) -> nat
    decreases s.len(),
{
    if s.len() > 0 && class(s[0]) {
        1 + span_len(s.skip(1), class)
    } else {
        0
    }
}

/// A span is the unique length `n` with all of `s[..n]` in the class and
/// `s[n]`, if there is one, outside it.
pub proof fn lemma_span_len(s: Seq<u8>, class: spec_fn(u8) -> bool, n: int)
    requires
        0 <= n <= s.len(),
        forall|i: int| 0 <= i < n ==> #[trigger] class(s[i]),
        n < s.len() ==> !class(s[n]),
    ensures
        span_len(s, class) == n,
    decreases n,
{
    if n > 0 {
        assert forall|i: int| 0 <= i < n - 1 implies #[trigger] class(s.skip(1)[i]) by {
            assert(s.skip(1)[i] == s[i + 1]);
        }
        lemma_span_len(s.skip(1), class, n - 1);
    }
}

pub fn in_class(c: ByteClass, b: u8) -> (r: bool)
    ensures
        r == class_fn(c)(b),
{
    let name = (97 <= b && b <= 122) || (65 <= b && b <= 90) || (48 <= b && b <= 57) || b
        == UNDERSCORE;
    match c {
        ByteClass::Name => name,
        ByteClass::Domain => name || b == DASH,
        ByteClass::Blank => b == SPACE || b == TAB,
        ByteClass::Text => b != PLUS && b != NEWLINE,
    }
}

/// The number of leading bytes of `input` in class `c`.
pub fn scan(input: &[u8], c: ByteClass) -> (n: usize)
    ensures
        n == span_len(input@, class_fn(c)),
        n <= input@.len(),
{
    let mut i: usize = 0;
    while i < input.len() && in_class(c, input[i])
        invariant
            0 <= i <= input@.len(),
            forall|j: int| 0 <= j < i ==> #[trigger] class_fn(c)(input@[j]),
        decreases input@.len() - i,
    {
        i = i + 1;
    }
    proof {
        lemma_span_len(input@, class_fn(c), i as int);
    }
    i
}

/// If `input` begins with `tag`, the bytes after it.
pub fn tagged<'a>(tag: &[u8], input: &'a [u8]) -> (r: Result<&'a [u8], ()>)
    ensures
        r is Ok <==> starts_with(input@, tag@),
        r is Ok ==> r->Ok_0@ == input@.skip(tag@.len() as int),
{
    if tag.len() > input.len() {
        return Err(());
    }
    let mut i: usize = 0;
    while i < tag.len()
        invariant
            tag@.len() <= input@.len(),
            0 <= i <= tag@.len(),
            forall|j: int| 0 <= j < i ==> input@[j] == tag@[j],
        decreases tag@.len() - i,
    {
        if input[i] != tag[i] {
            assert(input@.subrange(0, tag@.len() as int)[i as int] != tag@[i as int]);
            return Err(());
        }
        i = i + 1;
    }
    assert(input@.subrange(0, tag@.len() as int) =~= tag@);
    Ok(&input[tag.len()..input.len()])
}

/// The error of [`whitespace`]: no blank at the start of the input.
#[derive(Debug, Clone, Copy, PartialEq, Eq)]
pub struct NoWhitespace;

/// Consume `[ \t]+`.
pub fn whitespace(input: &[u8]) -> (r: Result<&[u8], NoWhitespace>)
    ensures
        r is Ok <==> span_len(input@, class_fn(ByteClass::Blank)) > 0,
        r is Ok ==> r->Ok_0@ == input@.skip(span_len(input@, class_fn(ByteClass::Blank)) as int),
        span_len(input@, class_fn(ByteClass::Blank)) <= input@.len(),
{
    let n = scan(input, ByteClass::Blank);
    if n > 0 {
        Ok(&input[n..input.len()])
    } else {
        Err(NoWhitespace)
    }
}

/// How many bytes to strip from the front of an input: a byte literal, or
/// the first of two rules that strips anything.
pub trait StripPredicate: Sized {
    spec fn strip_count(&self, input: Seq<u8>) -> nat;

    fn count(&self, input: &[u8]) -> (r: usize)
        ensures
            r == self.strip_count(input@),
            r <= input@.len(),
    ;
}

/// Either of two rules, the first one first.
pub struct Or<A, B> {
    pub a: A,
    pub b: B,
}

impl<A: StripPredicate, B: StripPredicate> StripPredicate for Or<A, B> {
    open spec fn strip_count(&self, input: Seq<u8>) -> nat {
        if self.a.strip_count(input) > 0 {
            self.a.strip_count(input)
        } else {
            self.b.strip_count(input)
        }
    }

    fn count(&self, input: &[u8]) -> (r: usize) {
        let count = self.a.count(input);
        if count > 0 {
            count
        } else {
            self.b.count(input)
        }
    }
}

impl<'t> StripPredicate for &'t [u8] {
    open spec fn strip_count(&self, input: Seq<u8>) -> nat {
        if starts_with(input, self@) {
            self@.len()
        } else {
            0
        }
    }

    fn count(&self, input: &[u8]) -> (r: usize) {
        match tagged(self, input) {
            Ok(_) => self.len(),
            Err(()) => 0,
        }
    }
}

impl<'t, const N: usize> StripPredicate for &'t [u8; N] {
    open spec fn strip_count(&self, input: Seq<u8>) -> nat {
        if starts_with(input, self@) {
            self@.len()
        } else {
            0
        }
    }

    fn count(&self, input: &[u8]) -> (r: usize) {
        let tag: &[u8] = self.as_slice();
        match tagged(tag, input) {
            Ok(_) => tag.len(),
            Err(()) => 0,
        }
    }
}

/// The bytes that repeated application of `p` strips from the front of `s`.
pub open spec fn strip_len<P: StripPredicate>(p: P, s: Seq<u8>) -> nat
    decreases s.len(),
{
    let c = p.strip_count(s);
    if 0 < c <= s.len() {
        c + strip_len(p, s.skip(c as int))
    } else {
        0
    }
}

/// Greedily strip what `tag` matches from the front of `input`; never fails.
pub fn tagged_many0<'a, P: StripPredicate>(tag: P, input: &'a [u8]) -> (r: &'a [u8])
    ensures
        strip_len(tag, input@) <= input@.len(),
        r@ == input@.skip(strip_len(tag, input@) as int),
{
    let mut cursor = input;
    let mut used: usize = 0;
    let total = input.len();
    assert(input@.skip(0) =~= input@);
    loop
        invariant
            total == input@.len(),
            used + cursor@.len() == input@.len(),
            cursor@ == input@.skip(used as int),
            strip_len(tag, input@) == used + strip_len(tag, cursor@),
        ensures
            strip_len(tag, cursor@) == 0,
        decreases cursor@.len(),
    {
        let count = tag.count(cursor);
        if count > 0 {
            assert(input@.skip(used as int).skip(count as int) =~= input@.skip(used + count));
            cursor = &cursor[count..cursor.len()];
            used = used + count;
        } else {
            break;
        }
    }
    cursor
}


/// Stripping with either of two one-byte literals skips the span of those
/// two bytes.
pub proof fn lemma_strip_either_byte(p: Or<&[u8; 1], &[u8; 1]>, s: Seq<u8>)
    ensures
        strip_len(p, s) == span_len(s, one_of(seq![p.a@[0], p.b@[0]])),
    decreases s.len(),
{
    let set = seq![p.a@[0], p.b@[0]];
    assert(p.a@.len() == 1 && p.b@.len() == 1);
    if s.len() > 0 {
        assert(starts_with(s, p.a@) <==> s[0] == p.a@[0]) by {
            if s[0] == p.a@[0] {
                assert(s.subrange(0, 1) =~= p.a@);
            }
            if starts_with(s, p.a@) {
                assert(s.subrange(0, 1)[0] == s[0]);
            }
        }
        assert(starts_with(s, p.b@) <==> s[0] == p.b@[0]) by {
            if s[0] == p.b@[0] {
                assert(s.subrange(0, 1) =~= p.b@);
            }
            if starts_with(s, p.b@) {
                assert(s.subrange(0, 1)[0] == s[0]);
            }
        }
        assert(set.contains(s[0]) <==> (s[0] == p.a@[0] || s[0] == p.b@[0])) by {
            if set.contains(s[0]) {
                let i = choose|i: int| 0 <= i < set.len() && set[i] == s[0];
                assert(i == 0 || i == 1);
            }
            if s[0] == p.a@[0] {
                assert(set[0] == s[0]);
            }
            if s[0] == p.b@[0] {
                assert(set[1] == s[0]);
            }
        }
        lemma_strip_either_byte(p, s.skip(1));
    }
}

} // verus!
