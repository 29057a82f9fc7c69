//! Operator-supplied aliases for peer public keys.
//!
//! An alias argument has the shape `PUBKEY:ALIAS`; the key must be 44
//! bytes of valid standard base64. The resolver is an exact-match table
//! from key bytes to alias bytes in which a later entry for the same key
//! wins, as repeated insertion into a map would.

use vstd::prelude::*;
use crate::shim::{base64_accepts, base64_decodes};
use crate::text::{bytes_eq, split, split_bytes};

verus! {

/// Why an alias argument was rejected.
#[derive(Clone, Copy, Debug, PartialEq, Eq, Structural)]
pub enum AliasError {
    /// No `:` separates a key from an alias.
    MissingSeparator,
    /// The key or the alias part is empty.
    EmptyPart,
    /// The key part is not exactly 44 bytes long.
    KeyLength,
    /// The key part is not valid base64.
    KeyEncoding,
}

/// A base64-encoded public key paired with a human-readable alias.
#[derive(Debug)]
pub struct Alias {
    pub inner: (Vec<u8>, Vec<u8>),
}

impl View for Alias {
    type V = (Seq<u8>, Seq<u8>);

    open spec fn view(&self) -> (Seq<u8>, Seq<u8>) {
        (self.inner.0@, self.inner.1@)
    }
}

/// What parsing an alias argument yields: the first `:` splits key from
/// alias, and a second `:` ends the alias, as splitting on `:` and
/// keeping the first two pieces would.
pub open spec fn spec_alias_parse(s: Seq<u8>) -> Result<(Seq<u8>, Seq<u8>), AliasError> {
    let parts = split_bytes(s, 58);
    if parts.len() < 2 {
        Err(AliasError::MissingSeparator)
    } else if parts[0].len() == 0 || parts[1].len() == 0 {
        Err(AliasError::EmptyPart)
    } else if parts[0].len() != 44 {
        Err(AliasError::KeyLength)
    } else if !base64_accepts(parts[0]) {
        Err(AliasError::KeyEncoding)
    } else {
        Ok((parts[0], parts[1]))
    }
}

impl Alias {
    /// Parse an alias argument, rejecting it exactly as
    /// [`spec_alias_parse`] says.
    pub fn parse(s: &[u8]) -> (r: Result<Alias, AliasError>)
        ensures
            match r {
                Ok(a) => spec_alias_parse(s@) == Ok::<_, AliasError>(a@),
                Err(e) => spec_alias_parse(s@) == Err::<(Seq<u8>, Seq<u8>), _>(e),
            },
    {
        let parts = split(s, 58);
        proof {
            assert(parts@.map_values(|v: Vec<u8>| v@).len() == parts@.len());
        }
        if parts.len() < 2 {
            return Err(AliasError::MissingSeparator);
        }
        proof {
            assert(parts@.map_values(|v: Vec<u8>| v@)[0] == parts@[0]@);
            assert(parts@.map_values(|v: Vec<u8>| v@)[1] == parts@[1]@);
        }
        if parts[0].len() == 0 || parts[1].len() == 0 {
            return Err(AliasError::EmptyPart);
        }
        if parts[0].len() != 44 {
            return Err(AliasError::KeyLength);
        }
        if !base64_decodes(&parts[0]) {
            return Err(AliasError::KeyEncoding);
        }
        let key = parts[0].clone();
        let name = parts[1].clone();
        Ok(Alias { inner: (key, name) })
    }
}

/// The alias bound to `k`: the last entry whose key equals `k`.
pub open spec fn alias_lookup(es: Seq<(Seq<u8>, Seq<u8>)>, k: Seq<u8>) -> Option<Seq<u8>>
    decreases es.len(),
{
    if es.len() == 0 {
        None
    } else if es.last().0 == k {
        Some(es.last().1)
    } else {
        alias_lookup(es.drop_last(), k)
    }
}

/// The identity resolver: public key bytes to alias bytes.
#[derive(Debug)]
pub struct AliasMap {
    pub entries: Vec<Alias>,
}

impl View for AliasMap {
    type V = Seq<(Seq<u8>, Seq<u8>)>;

    open spec fn view(&self) -> Seq<(Seq<u8>, Seq<u8>)> {
        self.entries@.map_values(|a: Alias| a@)
    }
}

impl AliasMap {
    /// A resolver over the given entries, in order.
    pub fn new(entries: Vec<Alias>) -> (r: AliasMap)
        ensures
            r@ == entries@.map_values(|a: Alias| a@),
    {
        AliasMap { entries }
    }

    /// The alias for `key`, exactly as [`alias_lookup`] says.
    pub fn lookup(&self, key: &[u8]) -> (r: Option<Vec<u8>>)
        ensures
            match r {
                Some(v) => alias_lookup(self@, key@) == Some(v@),
                None => alias_lookup(self@, key@) is None,
            },
    {
        let mut i: usize = self.entries.len();
        proof {
            assert(self@.take(self@.len() as int) =~= self@);
        }
        while i > 0
            invariant
                0 <= i <= self.entries@.len(),
                self@.len() == self.entries@.len(),
                alias_lookup(self@, key@) == alias_lookup(self@.take(i as int), key@),
            decreases i,
        {
            i -= 1;
            proof {
                assert(self@.take(i + 1).drop_last() =~= self@.take(i as int));
                assert(self@.take(i + 1).last() == self@[i as int]);
                assert(self@[i as int] == self.entries@[i as int]@);
            }
            if bytes_eq(self.entries[i].inner.0.as_slice(), key) {
                let found = self.entries[i].inner.1.clone();
                return Some(found);
            }
        }
        proof {
            assert(self@.take(0) =~= Seq::<(Seq<u8>, Seq<u8>)>::empty());
        }
        None
    }
}

/// Alias resolution is exact matching: a key that equals some entry's
/// key resolves to the alias of the last such entry, and a key that
/// equals none resolves to nothing.
pub proof fn lemma_alias_resolution(es: Seq<(Seq<u8>, Seq<u8>)>, k: Seq<u8>, i: int)
    requires
        0 <= i < es.len(),
        es[i].0 == k,
        forall|j: int| i < j < es.len() ==> (#[trigger] es[j]).0 != k,
    ensures
        alias_lookup(es, k) == Some(es[i].1),
    decreases es.len(),
{
    if i < es.len() - 1 {
        lemma_alias_resolution(es.drop_last(), k, i);
    }
}

/// A key that matches no entry resolves to nothing.
pub proof fn lemma_alias_miss(es: Seq<(Seq<u8>, Seq<u8>)>, k: Seq<u8>)
    requires
        forall|j: int| 0 <= j < es.len() ==> (#[trigger] es[j]).0 != k,
    ensures
        alias_lookup(es, k) is None,
    decreases es.len(),
{
    if es.len() > 0 {
        lemma_alias_miss(es.drop_last(), k);
    }
}

} // verus!
