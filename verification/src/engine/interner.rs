use string_interner::backend::StringBackend;
use string_interner::StringInterner;
use string_interner::Symbol;
use vstd::prelude::*;

verus! {

/// The per-chunk interner of feature identifiers: a `StringInterner` of
/// string_interner with the string backend, whose tokens are the numbers
/// 0, 1, 2, ... in the order in which the strings came.
#[verifier::external_body]
pub struct OurInterner {
    inner: StringInterner<StringBackend>,
}

/// The strings that an interner holds, in the order of their tokens.
pub uninterp spec fn interned(interner: &OurInterner) -> Seq<Seq<char>>;

/// `StringInterner::new` of string_interner: an interner without strings.
#[verifier::external_body]
fn interner_new() -> (interner: OurInterner)
    ensures
        interned(&interner) == Seq::<Seq<char>>::empty(),
{
    OurInterner { inner: StringInterner::new() }
}

/// `StringInterner::len` of string_interner: how many strings are held.
#[verifier::external_body]
fn interner_len(interner: &OurInterner) -> (n: usize)
    ensures
        n == interned(interner).len(),
{
    interner.inner.len()
}

/// `StringInterner::get_or_intern` of string_interner, with the string
/// backend and 32-bit symbols: a string that is held keeps a token under
/// which it stands and nothing changes; a new one is appended and gets the
/// next token. The outside function panics once `u32::MAX` strings are held.
#[verifier::external_body]
fn interner_get_or_intern(interner: &mut OurInterner, string: &str) -> (token: u32)
    requires
        interned(old(interner)).len() < u32::MAX,
    ensures
        interned(old(interner)).contains(string@) ==> interned(final(interner)) == interned(
            old(interner),
        ),
        !interned(old(interner)).contains(string@) ==> interned(final(interner)) == interned(
            old(interner),
        ).push(string@),
        token < interned(final(interner)).len(),
        interned(final(interner))[token as int] == string@,
{
    interner.inner.get_or_intern(string).to_usize() as u32
}

/// `StringInterner::resolve` of string_interner: the string of a token that
/// was handed out, and nothing for any other number.
#[verifier::external_body]
fn interner_resolve(interner: &OurInterner, token: u32) -> (string: Option<String>)
    ensures
        token < interned(interner).len() ==> string.is_some() && string.unwrap()@ == interned(
            interner,
        )[token as int],
        token >= interned(interner).len() ==> string.is_none(),
{
    let symbol = string_interner::symbol::SymbolU32::try_from_usize(token as usize)?;
    interner.inner.resolve(symbol).map(|s| s.to_string())
}

/// The interner cannot take another string.
#[derive(Debug, Clone, Copy, PartialEq, Eq, Structural)]
pub struct InternerFull;

impl OurInterner {
    /// The strings held, by token.
    pub open spec fn strings(&self) -> Seq<Seq<char>> {
        interned(self)
    }

    /// No string is held under two tokens, and every token fits in 32 bits.
    pub open spec fn wf(&self) -> bool {
        self.strings().no_duplicates() && self.strings().len() <= u32::MAX
    }

    /// The strings after `string` was interned.
    pub open spec fn spec_with(strings: Seq<Seq<char>>, string: Seq<char>) -> Seq<Seq<char>> {
        if strings.contains(string) {
            strings
        } else {
            strings.push(string)
        }
    }

    pub fn new() -> (interner: Self)
        ensures
            interner.wf(),
            interner.strings() == Seq::<Seq<char>>::empty(),
    {
        interner_new()
    }

    /// How many strings are held.
    pub fn len(&self) -> (n: usize)
        ensures
            n == self.strings().len(),
    {
        interner_len(self)
    }

    /// The token of `string`, which is interned first if it is new. Tokens
    /// are 32-bit numbers: once the last of them is in use the interner is
    /// full and changes no more.
    pub fn get_or_intern(&mut self, string: &str) -> (r: Result<u32, InternerFull>)
        requires
            old(self).wf(),
        ensures
            final(self).wf(),
            old(self).strings().len() < u32::MAX ==> r.is_ok(),
            r.is_ok() ==> final(self).strings() == Self::spec_with(old(self).strings(), string@)
                && r.unwrap() == final(self).strings().index_of(string@)
                && final(self).strings().contains(string@),
            r.is_err() ==> final(self).strings() == old(self).strings(),
            r.is_err() <==> old(self).strings().len() >= u32::MAX,
    {
        if interner_len(self) >= u32::MAX as usize {
            return Err(InternerFull);
        }
        let token = interner_get_or_intern(self, string);
        proof {
            let after = self.strings();
            assert(after[token as int] == string@);
            assert(after.no_duplicates()) by {
                if !old(self).strings().contains(string@) {
                    assert forall|i: int, j: int|
                        0 <= i < after.len() && 0 <= j < after.len() && i != j implies after[i]
                        != after[j] by {
                        if i == after.len() - 1 {
                            assert(old(self).strings()[j] == after[j]);
                        } else if j == after.len() - 1 {
                            assert(old(self).strings()[i] == after[i]);
                        }
                    }
                }
            }
            assert(after.contains(string@));
            after.index_of_first_ensures(string@);
            let k = after.index_of(string@);
            assert(after[k] == string@);
        }
        Ok(token)
    }

    /// The string that stands under `token`, if the token was handed out.
    pub fn resolve(&self, token: u32) -> (string: Option<String>)
        ensures
            token < self.strings().len() ==> string.is_some() && string.unwrap()@
                == self.strings()[token as int],
            token >= self.strings().len() ==> string.is_none(),
    {
        interner_resolve(self, token)
    }
}

} // verus!
