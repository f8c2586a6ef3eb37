//! Resolution of keys against the buffer they were parsed from.
use vstd::prelude::*;
use vstd::string::StringSliceAdditionalSpecFns;
use vstd::utf8::valid_utf8;
use crate::wml::{key_bytes, StringKey};

verus! {

/// The outcome of resolving a key.
#[derive(Debug, Clone, Copy, PartialEq, Eq)]
pub enum EffectResult<T> {
    Unhandled,
    Handled(T),
}

impl<T> EffectResult<T> {
    /// The handled value.
    pub fn unwrap(self) -> (r: T)
        requires
            self is Handled,
        ensures
            self == EffectResult::Handled(r),
    {
        match self {
            EffectResult::Handled(x) => x,
            EffectResult::Unhandled => vstd::pervasive::unreached(),
        }
    }
}

/// Relies on `core::str::from_utf8`: the same bytes as a string slice, where
/// they are valid UTF-8.
#[verifier::external_body]
fn utf8<'b>(bytes: &'b [u8]) -> (r: Option<&'b str>)
    ensures
        (r is Some) <==> valid_utf8(bytes@),
        r matches Some(s) ==> s.spec_bytes() == bytes@,
{
    core::str::from_utf8(bytes).ok()
}

/// Resolves keys against one buffer.
#[derive(Debug, Clone, Copy)]
pub struct Printer<'a> {
    data: &'a [u8],
}

impl<'a> Printer<'a> {
    pub fn new(data: &'a [u8]) -> (r: Printer<'a>)
        ensures
            r.data() == data@,
    {
        Printer { data }
    }

    pub closed spec fn data(&self) -> Seq<u8> {
        self.data@
    }

    /// The bytes that `key` stands for, where the key lies inside the buffer.
    pub fn get_bytes(&self, key: StringKey) -> (r: EffectResult<&'a [u8]>)
        ensures
            (r is Handled) <==> key.idx + key.len <= self.data().len(),
            r is Handled ==> r->Handled_0@ == key_bytes(self.data(), key),
    {
        if key.idx <= self.data.len() && key.len <= self.data.len() - key.idx {
            EffectResult::Handled(&self.data[key.idx..key.idx + key.len])
        } else {
            EffectResult::Unhandled
        }
    }

    /// The string that `key` stands for, where the key lies inside the buffer
    /// over valid UTF-8.
    pub fn get_str(&self, key: StringKey) -> (r: EffectResult<&'a str>)
        ensures
            (r is Handled) <==> key.idx + key.len <= self.data().len() && valid_utf8(key_bytes(self.data(), key)),
            r matches EffectResult::Handled(s) ==> s.spec_bytes() == key_bytes(self.data(), key),
    {
        match self.get_bytes(key) {
            EffectResult::Handled(bytes) => match utf8(bytes) {
                Some(s) => EffectResult::Handled(s),
                None => EffectResult::Unhandled,
            },
            EffectResult::Unhandled => EffectResult::Unhandled,
        }
    }
}

} // verus!
