//! The symbol contract and the coded-symbol algebra.
//!
//! A coded symbol accumulates, at one stream position, the contributions of
//! many symbols: the bytewise XOR of their encodings, the XOR of their
//! hashes, and a signed count of local minus remote contributions.

use vstd::prelude::*;
use std::collections::hash_map::DefaultHasher;
use std::hash::Hasher;
use vstd::std_specs::hash::DefaultHasherAdditionalSpecFns;
use vstd::bytes::{spec_u64_from_le_bytes, spec_u64_to_le_bytes, u64_from_le_bytes, u64_to_le_bytes};
use vstd::bytes::lemma_auto_spec_u64_to_from_le_bytes;
use core::marker::PhantomData;

verus! {

/// Bytewise XOR of two byte strings of equal length.
pub open spec fn xor_bytes(a: Seq<u8>, b: Seq<u8>) -> Seq<u8> {
    Seq::new(a.len(), |i: int| a[i] ^ b[i])
}

/// The all-zero byte string of length `n`.
pub open spec fn zero_bytes(n: nat) -> Seq<u8> {
    Seq::new(n, |i: int| 0u8)
}

/// The hash that the default symbol hashing assigns to a byte string:
/// one `write` of the whole string to std's `DefaultHasher`, then `finish`.
pub open spec fn spec_default_symbol_hash(bytes: Seq<u8>) -> u64 {
    DefaultHasher::spec_finish(seq![bytes])
}

/// Hashes an encoded symbol with std's `DefaultHasher`, as the default
/// symbol hashing does. Implementations of [`Symbol::hash_`] that do not
/// override the hash call this on the encoded bytes.
pub fn default_symbol_hash(bytes: &Vec<u8>) -> (r: u64)
    ensures
        r == spec_default_symbol_hash(bytes@),
{
    let mut hasher = DefaultHasher::new();
    hasher.write(bytes.as_slice());
    proof {
        assert(Seq::<Seq<u8>>::empty().push(bytes@) =~= seq![bytes@]);
    }
    hasher.finish()
}

/// A symbol is an item of the user's set. It must round-trip through a byte
/// encoding of fixed length, and it exposes a 64-bit hash; the codec relies
/// on nothing else.
///
/// `spec_encode`, `spec_decode` and `spec_hash` are the mathematical models
/// of the three executable operations; the two lemmas oblige every
/// implementation to encode to the fixed length and to decode its own
/// encodings back to the same value.
pub trait Symbol: Sized {
    /// The fixed length, in bytes, of every encoded symbol.
    spec fn spec_length() -> usize;

    /// The canonical byte encoding of this symbol.
    spec fn spec_encode(self) -> Seq<u8>;

    /// The symbol any byte string of the fixed length decodes to. Total:
    /// on strings outside the image of `spec_encode` it is some symbol,
    /// and the peeling predicate re-checks the hash.
    spec fn spec_decode(bytes: Seq<u8>) -> Self;

    /// The 64-bit hash of this symbol.
    spec fn spec_hash(self) -> u64;

    /// Every encoding has the fixed length.
    proof fn lemma_encode_length(self)
        ensures
            self.spec_encode().len() == Self::spec_length(),
    ;

    /// Decoding is the inverse of encoding on encoded values.
    proof fn lemma_decode_encode(self)
        ensures
            Self::spec_decode(self.spec_encode()) == self,
    ;

    /// The fixed encoded length.
    fn byte_length() -> (r: usize)
        ensures
            r == Self::spec_length(),
    ;

    /// Encodes the symbol to exactly `Self::spec_length()` bytes.
    fn encode_to_bytes(&self) -> (r: Vec<u8>)
        ensures
            r@ == self.spec_encode(),
    ;

    /// Decodes a byte string of the fixed length to a symbol.
    fn decode_from_bytes(bytes: &Vec<u8>) -> (r: Self)
        requires
            bytes@.len() == Self::spec_length(),
        ensures
            r == Self::spec_decode(bytes@),
    ;

    /// The 64-bit hash of the symbol. The default choice is
    /// [`default_symbol_hash`] of the encoded bytes, but an implementation
    /// may substitute its own hash.
    fn hash_(&self) -> (r: u64)
        ensures
            r == self.spec_hash(),
    ;
}

/// Whether a symbol is being added to or removed from a coded symbol.
///
/// Adding a local, or removing a remote, symbol raises the count by one;
/// removing a local, or adding a remote, symbol lowers it by one.
#[derive(Clone, Copy)]
pub enum Direction {
    Add,
    Remove,
}

/// The outcome of trying to peel a symbol out of a coded symbol: the
/// residue was a single local-only symbol, a single remote-only symbol,
/// or the coded symbol was not peelable at all.
///
/// `NotPeelable` is a normal outcome met on every peel scan, not an error.
#[derive(PartialEq, Eq, Clone, Debug)]
pub enum PeelableResult<T: Symbol> {
    Local(T),
    Remote(T),
    NotPeelable,
}

/// One position of the coded-symbol stream.
///
/// `sum` is the bytewise XOR of the encodings of all symbols folded in,
/// `hash` the XOR of their hashes, and `count` the number of local
/// contributions minus the number of remote ones.
#[derive(Debug)]
pub struct CodedSymbol<T: Symbol> {
    pub _marker: PhantomData<T>,
    pub sum: Vec<u8>,
    pub hash: u64,
    pub count: i64,
}

/// The mathematical content of a coded symbol: its byte sum, its hash
/// sum, and its signed count, free of any machine representation.
#[verifier::ext_equal]
pub struct CodedSymbolModel {
    pub sum: Seq<u8>,
    pub hash: u64,
    pub count: int,
}

impl<T: Symbol> View for CodedSymbol<T> {
    type V = CodedSymbolModel;

    open spec fn view(&self) -> CodedSymbolModel {
        CodedSymbolModel { sum: self.sum@, hash: self.hash, count: self.count as int }
    }
}

/// The model of the zeroed coded symbol for symbols of encoded length `n`.
pub open spec fn new_model(n: nat) -> CodedSymbolModel {
    CodedSymbolModel { sum: zero_bytes(n), hash: 0, count: 0 }
}

/// What folding one symbol into a coded symbol does to its model.
pub open spec fn apply_model<T: Symbol>(
    m: CodedSymbolModel,
    s: T,
    direction: Direction,
) -> CodedSymbolModel {
    CodedSymbolModel {
        sum: xor_bytes(m.sum, s.spec_encode()),
        hash: m.hash ^ s.spec_hash(),
        count: if direction is Add {
            m.count + 1
        } else {
            m.count - 1
        },
    }
}

/// What joining two coded symbols does to their models: XOR of the sums
/// and hashes, sum of the counts.
pub open spec fn combine_model(a: CodedSymbolModel, b: CodedSymbolModel) -> CodedSymbolModel {
    CodedSymbolModel { sum: xor_bytes(a.sum, b.sum), hash: a.hash ^ b.hash, count: a.count + b.count }
}

/// What subtracting a remote coded symbol from a local one does to their
/// models: XOR of the sums and hashes, difference of the counts.
pub open spec fn collapse_model(a: CodedSymbolModel, b: CodedSymbolModel) -> CodedSymbolModel {
    CodedSymbolModel { sum: xor_bytes(a.sum, b.sum), hash: a.hash ^ b.hash, count: a.count - b.count }
}

/// Emptiness of a model: zero count and zero hash.
pub open spec fn empty_model(m: CodedSymbolModel) -> bool {
    m.count == 0 && m.hash == 0
}

/// Peelability of a model: the count is plus or minus one and the hash
/// verifies the decode of the sum.
pub open spec fn peelable_model<T: Symbol>(m: CodedSymbolModel) -> bool {
    (m.count == 1 || m.count == -1) && m.hash == T::spec_decode(m.sum).spec_hash()
}

/// Bytewise XOR of two equal-length byte buffers.
fn xor_vecs(a: &Vec<u8>, b: &Vec<u8>) -> (r: Vec<u8>)
    requires
        a@.len() == b@.len(),
    ensures
        r@ == xor_bytes(a@, b@),
{
    let mut r: Vec<u8> = Vec::new();
    let n = a.len();
    let mut i: usize = 0;
    while i < n
        invariant
            i <= n,
            n == a@.len(),
            a@.len() == b@.len(),
            r@.len() == i,
            forall|j: int| 0 <= j < i ==> r@[j] == (a@[j] ^ b@[j]),
        decreases n - i,
    {
        let x = a[i] ^ b[i];
        r.push(x);
        i = i + 1;
    }
    proof {
        assert(r@ =~= xor_bytes(a@, b@));
    }
    r
}

impl<T: Symbol> CodedSymbol<T> {
    /// A coded symbol is well formed when its byte sum has the fixed
    /// encoded length of the symbol type.
    pub open spec fn wf(self) -> bool {
        self.sum@.len() == T::spec_length()
    }

    /// A coded symbol is empty when its count and hash are both zero.
    /// The byte sum is deliberately not inspected.
    pub open spec fn spec_is_empty(self) -> bool {
        self.count == 0 && self.hash == 0
    }

    /// A coded symbol is peelable when exactly one symbol remains in it:
    /// the count is plus or minus one and the hash verifies the decode.
    pub open spec fn spec_peelable(self) -> bool {
        (self.count == 1 || self.count == -1)
            && self.hash == T::spec_decode(self.sum@).spec_hash()
    }

    /// The zeroed coded symbol: all-zero sum, zero hash, zero count.
    pub fn new() -> (r: Self)
        ensures
            r.wf(),
            r.sum@ == zero_bytes(T::spec_length() as nat),
            r.hash == 0,
            r.count == 0,
    {
        let sum = vec![0u8; T::byte_length()];
        proof {
            assert(sum@ =~= zero_bytes(T::spec_length() as nat));
        }
        CodedSymbol { _marker: PhantomData, sum, hash: 0, count: 0 }
    }

    /// Folds one symbol into the coded symbol: XORs the encoding into the
    /// sum, XORs the hash in, and moves the count one step in the given
    /// direction.
    pub fn apply(&mut self, s: &T, direction: Direction)
        requires
            old(self).wf(),
            direction is Add ==> old(self).count < i64::MAX,
            direction is Remove ==> old(self).count > i64::MIN,
        ensures
            final(self).wf(),
            final(self).sum@ == xor_bytes(old(self).sum@, s.spec_encode()),
            final(self).hash == old(self).hash ^ s.spec_hash(),
            final(self).count == (if direction is Add {
                old(self).count + 1
            } else {
                old(self).count - 1
            }),
    {
        let encoded_s = s.encode_to_bytes();
        proof {
            s.lemma_encode_length();
        }
        self.sum = xor_vecs(&self.sum, &encoded_s);
        self.hash = self.hash ^ s.hash_();
        match direction {
            Direction::Add => {
                self.count = self.count + 1;
            }
            Direction::Remove => {
                self.count = self.count - 1;
            }
        }
    }

    /// Joins two coded symbols produced from two distinct sets: XOR of the
    /// sums, XOR of the hashes, sum of the counts. The result is only
    /// meaningful when the originating sets shared no element.
    pub fn combine(&self, b: &CodedSymbol<T>) -> (r: CodedSymbol<T>)
        requires
            self.wf(),
            b.wf(),
            i64::MIN <= self.count + b.count <= i64::MAX,
        ensures
            r.wf(),
            r.sum@ == xor_bytes(self.sum@, b.sum@),
            r.hash == self.hash ^ b.hash,
            r.count == self.count + b.count,
    {
        CodedSymbol {
            _marker: PhantomData,
            sum: xor_vecs(&self.sum, &b.sum),
            hash: self.hash ^ b.hash,
            count: self.count + b.count,
        }
    }

    /// Subtracts a remote coded symbol from a local one: XOR of the sums,
    /// XOR of the hashes, difference of the counts. The result encodes the
    /// symmetric difference with the sign convention "positive means
    /// local-only, negative means remote-only".
    pub fn collapse(&self, b: &CodedSymbol<T>) -> (r: CodedSymbol<T>)
        requires
            self.wf(),
            b.wf(),
            i64::MIN <= self.count - b.count <= i64::MAX,
        ensures
            r.wf(),
            r.sum@ == xor_bytes(self.sum@, b.sum@),
            r.hash == self.hash ^ b.hash,
            r.count == self.count - b.count,
    {
        CodedSymbol {
            _marker: PhantomData,
            sum: xor_vecs(&self.sum, &b.sum),
            hash: self.hash ^ b.hash,
            count: self.count - b.count,
        }
    }

    /// Whether exactly one symbol remains folded in: the count is plus or
    /// minus one and the hash matches the hash of the decoded sum.
    pub fn is_peelable(&self) -> (r: bool)
        requires
            self.wf(),
        ensures
            r == self.spec_peelable(),
    {
        if self.count == 1 || self.count == -1 {
            let decoded = T::decode_from_bytes(&self.sum);
            decoded.hash_() == self.hash
        } else {
            false
        }
    }

    /// Extracts the single remaining symbol, if there is one, and resets
    /// the coded symbol to the zeroed state; otherwise leaves the coded
    /// symbol untouched and reports `NotPeelable`.
    pub fn peel(&mut self) -> (r: PeelableResult<T>)
        requires
            old(self).wf(),
        ensures
            final(self).wf(),
            old(self).spec_peelable() ==> {
                &&& final(self).sum@ == zero_bytes(T::spec_length() as nat)
                &&& final(self).hash == 0
                &&& final(self).count == 0
                &&& r == (if old(self).count == 1 {
                    PeelableResult::Local(T::spec_decode(old(self).sum@))
                } else {
                    PeelableResult::Remote(T::spec_decode(old(self).sum@))
                })
            },
            !old(self).spec_peelable() ==> {
                &&& final(self).sum@ == old(self).sum@
                &&& final(self).hash == old(self).hash
                &&& final(self).count == old(self).count
                &&& r == PeelableResult::<T>::NotPeelable
            },
    {
        if self.is_peelable() {
            let return_result = if self.count == 1 {
                PeelableResult::Local(T::decode_from_bytes(&self.sum))
            } else {
                PeelableResult::Remote(T::decode_from_bytes(&self.sum))
            };
            *self = CodedSymbol::new();
            return_result
        } else {
            PeelableResult::NotPeelable
        }
    }

    /// The same decision as [`Self::peel`], without mutating the coded
    /// symbol.
    pub fn peel_peek(&self) -> (r: PeelableResult<T>)
        requires
            self.wf(),
        ensures
            self.spec_peelable() ==> r == (if self.count == 1 {
                PeelableResult::Local(T::spec_decode(self.sum@))
            } else {
                PeelableResult::Remote(T::spec_decode(self.sum@))
            }),
            !self.spec_peelable() ==> r == PeelableResult::<T>::NotPeelable,
    {
        if self.is_peelable() {
            if self.count == 1 {
                PeelableResult::Local(T::decode_from_bytes(&self.sum))
            } else {
                PeelableResult::Remote(T::decode_from_bytes(&self.sum))
            }
        } else {
            PeelableResult::NotPeelable
        }
    }

    /// Whether no symbol remains folded in: zero count and zero hash.
    pub fn is_empty(&self) -> (r: bool)
        ensures
            r == self.spec_is_empty(),
    {
        if self.count != 0 {
            return false;
        }
        if self.hash != 0 {
            return false;
        }
        true
    }

    /// Serialises the coded symbol to its wire form: the byte sum
    /// verbatim, the hash as eight little-endian bytes, and the count as
    /// eight little-endian two's-complement bytes.
    pub fn to_wire_bytes(&self) -> (r: Vec<u8>)
        requires
            self.wf(),
        ensures
            r@ == wire_model(self.sum@, self.hash, self.count),
            r@.len() == T::spec_length() + 16,
    {
        let mut r: Vec<u8> = Vec::new();
        let mut i: usize = 0;
        let n = self.sum.len();
        while i < n
            invariant
                i <= n,
                n == self.sum@.len(),
                r@.len() == i,
                forall|j: int| 0 <= j < i ==> r@[j] == self.sum@[j],
            decreases n - i,
        {
            let x = self.sum[i];
            r.push(x);
            i = i + 1;
        }
        let hash_bytes = u64_to_le_bytes(self.hash);
        let mut i: usize = 0;
        while i < 8
            invariant
                i <= 8,
                n == self.sum@.len(),
                hash_bytes@ == spec_u64_to_le_bytes(self.hash),
                hash_bytes@.len() == 8,
                r@.len() == n + i,
                forall|j: int| 0 <= j < n ==> r@[j] == self.sum@[j],
                forall|j: int| 0 <= j < i ==> r@[n + j] == hash_bytes@[j],
            decreases 8 - i,
        {
            let x = hash_bytes[i];
            r.push(x);
            i = i + 1;
        }
        let count_bits: u64 = if self.count >= 0 {
            self.count as u64
        } else {
            ((self.count - i64::MIN) as u64) + 0x8000_0000_0000_0000u64
        };
        proof {
            assert(count_bits == spec_count_bits(self.count));
        }
        let count_bytes = u64_to_le_bytes(count_bits);
        let mut i: usize = 0;
        while i < 8
            invariant
                i <= 8,
                n == self.sum@.len(),
                count_bits == spec_count_bits(self.count),
                hash_bytes@ == spec_u64_to_le_bytes(self.hash),
                hash_bytes@.len() == 8,
                count_bytes@ == spec_u64_to_le_bytes(count_bits),
                count_bytes@.len() == 8,
                r@.len() == n + 8 + i,
                forall|j: int| 0 <= j < n ==> r@[j] == self.sum@[j],
                forall|j: int| 0 <= j < 8 ==> r@[n + j] == hash_bytes@[j],
                forall|j: int| 0 <= j < i ==> r@[n + 8 + j] == count_bytes@[j],
            decreases 8 - i,
        {
            let x = count_bytes[i];
            r.push(x);
            i = i + 1;
        }
        proof {
            vstd::bytes::lemma_auto_spec_u64_to_from_le_bytes();
            assert(r@ =~= wire_model(self.sum@, self.hash, self.count));
        }
        r
    }

    /// Deserialises a coded symbol from its wire form.
    pub fn from_wire_bytes(bytes: &Vec<u8>) -> (r: CodedSymbol<T>)
        requires
            bytes@.len() == T::spec_length() + 16,
        ensures
            r.wf(),
            bytes@ == wire_model(r.sum@, r.hash, r.count),
            r.sum@ == bytes@.subrange(0, T::spec_length() as int),
    {
        let n = T::byte_length();
        let total = bytes.len();
        proof {
            assert(n + 16 == total);
        }
        let sum = copy_range(bytes, 0, n);
        let hash_bytes = copy_range(bytes, n, n + 8);
        let hash = u64_from_le_bytes(hash_bytes.as_slice());
        let count_bytes = copy_range(bytes, n + 8, n + 16);
        let count_bits = u64_from_le_bytes(count_bytes.as_slice());
        let count: i64 = if count_bits <= 0x7fff_ffff_ffff_ffffu64 {
            count_bits as i64
        } else {
            ((count_bits - 0x8000_0000_0000_0000u64) as i64) + i64::MIN
        };
        proof {
            assert(count == spec_count_of_bits(count_bits));
            vstd::bytes::lemma_auto_spec_u64_to_from_le_bytes();
            assert(spec_count_bits(spec_count_of_bits(count_bits)) == count_bits);
            assert(bytes@ =~= wire_model(
                bytes@.subrange(0, T::spec_length() as int),
                hash,
                count,
            ));
        }
        CodedSymbol { _marker: PhantomData, sum, hash, count }
    }
}

impl<T: Symbol> Clone for CodedSymbol<T> {
    /// A clone carries the same sum, hash and count.
    fn clone(&self) -> (r: Self)
        ensures
            r.sum@ == self.sum@,
            r.hash == self.hash,
            r.count == self.count,
    {
        let mut sum: Vec<u8> = Vec::new();
        let n = self.sum.len();
        let mut i: usize = 0;
        while i < n
            invariant
                i <= n,
                n == self.sum@.len(),
                sum@.len() == i,
                forall|j: int| 0 <= j < i ==> sum@[j] == self.sum@[j],
            decreases n - i,
        {
            let x = self.sum[i];
            sum.push(x);
            i = i + 1;
        }
        proof {
            assert(sum@ =~= self.sum@);
        }
        CodedSymbol { _marker: PhantomData, sum, hash: self.hash, count: self.count }
    }
}

/// XOR of a byte string with itself is the all-zero string.
pub proof fn lemma_xor_bytes_self(a: Seq<u8>)
    ensures
        xor_bytes(a, a) == zero_bytes(a.len()),
{
    assert forall|i: int| 0 <= i < a.len() implies xor_bytes(a, a)[i] == 0u8 by {
        let x = a[i];
        assert(x ^ x == 0u8) by (bit_vector);
    }
    assert(xor_bytes(a, a) =~= zero_bytes(a.len()));
}

/// Bytewise XOR is commutative on equal-length strings.
pub proof fn lemma_xor_bytes_commutative(a: Seq<u8>, b: Seq<u8>)
    requires
        a.len() == b.len(),
    ensures
        xor_bytes(a, b) == xor_bytes(b, a),
{
    assert forall|i: int| 0 <= i < a.len() implies xor_bytes(a, b)[i] == xor_bytes(b, a)[i] by {
        let x = a[i];
        let y = b[i];
        assert(x ^ y == y ^ x) by (bit_vector);
    }
    assert(xor_bytes(a, b) =~= xor_bytes(b, a));
}

/// Bytewise XOR is associative on equal-length strings.
pub proof fn lemma_xor_bytes_associative(a: Seq<u8>, b: Seq<u8>, c: Seq<u8>)
    requires
        a.len() == b.len(),
        b.len() == c.len(),
    ensures
        xor_bytes(xor_bytes(a, b), c) == xor_bytes(a, xor_bytes(b, c)),
{
    assert forall|i: int| 0 <= i < a.len() implies xor_bytes(xor_bytes(a, b), c)[i] == xor_bytes(
        a,
        xor_bytes(b, c),
    )[i] by {
        let x = a[i];
        let y = b[i];
        let z = c[i];
        assert((x ^ y) ^ z == x ^ (y ^ z)) by (bit_vector);
    }
    assert(xor_bytes(xor_bytes(a, b), c) =~= xor_bytes(a, xor_bytes(b, c)));
}

/// Collapsing a coded symbol with itself leaves nothing: the count and
/// hash are zero — so the result is empty — and the byte sum is all-zero.
pub proof fn lemma_collapse_model_self(m: CodedSymbolModel)
    ensures
        empty_model(collapse_model(m, m)),
        collapse_model(m, m).sum == zero_bytes(m.sum.len()),
{
    let h = m.hash;
    assert(h ^ h == 0u64) by (bit_vector);
    lemma_xor_bytes_self(m.sum);
}

/// Combining coded symbols is commutative, up to equality of the sum,
/// hash and count.
pub proof fn lemma_combine_model_commutative(a: CodedSymbolModel, b: CodedSymbolModel)
    requires
        a.sum.len() == b.sum.len(),
    ensures
        combine_model(a, b) == combine_model(b, a),
{
    let x = a.hash;
    let y = b.hash;
    assert(x ^ y == y ^ x) by (bit_vector);
    lemma_xor_bytes_commutative(a.sum, b.sum);
    assert(combine_model(a, b) =~= combine_model(b, a));
}

/// Combining coded symbols is associative, up to equality of the sum,
/// hash and count.
pub proof fn lemma_combine_model_associative(
    a: CodedSymbolModel,
    b: CodedSymbolModel,
    c: CodedSymbolModel,
)
    requires
        a.sum.len() == b.sum.len(),
        b.sum.len() == c.sum.len(),
    ensures
        combine_model(combine_model(a, b), c) == combine_model(a, combine_model(b, c)),
{
    let x = a.hash;
    let y = b.hash;
    let z = c.hash;
    assert((x ^ y) ^ z == x ^ (y ^ z)) by (bit_vector);
    lemma_xor_bytes_associative(a.sum, b.sum, c.sum);
    assert(combine_model(combine_model(a, b), c) =~= combine_model(a, combine_model(b, c)));
}


/// The two's-complement 64-bit image of a signed count.
pub open spec fn spec_count_bits(c: i64) -> u64 {
    if c >= 0 {
        c as u64
    } else {
        (c + 0x1_0000_0000_0000_0000) as u64
    }
}

/// The signed count a two's-complement 64-bit image stands for.
pub open spec fn spec_count_of_bits(b: u64) -> i64 {
    if b <= i64::MAX as u64 {
        b as i64
    } else {
        (b - 0x1_0000_0000_0000_0000) as i64
    }
}

/// The wire form of a coded symbol: the byte sum verbatim, the hash as
/// eight little-endian bytes, and the count as eight little-endian
/// two's-complement bytes.
pub open spec fn wire_model(sum: Seq<u8>, hash: u64, count: i64) -> Seq<u8> {
    sum + spec_u64_to_le_bytes(hash) + spec_u64_to_le_bytes(spec_count_bits(count))
}

/// Wire round trip: each field read back from the wire form equals the
/// field written, bit for bit.
pub proof fn lemma_wire_round_trip(sum: Seq<u8>, hash: u64, count: i64)
    ensures
        wire_model(sum, hash, count).len() == sum.len() + 16,
        wire_model(sum, hash, count).subrange(0, sum.len() as int) == sum,
        spec_u64_from_le_bytes(
            wire_model(sum, hash, count).subrange(sum.len() as int, sum.len() as int + 8),
        ) == hash,
        spec_count_of_bits(
            spec_u64_from_le_bytes(
                wire_model(sum, hash, count).subrange(sum.len() as int + 8, sum.len() as int + 16),
            ),
        ) == count,
{
    lemma_auto_spec_u64_to_from_le_bytes();
    let w = wire_model(sum, hash, count);
    assert(w.subrange(0, sum.len() as int) =~= sum);
    assert(w.subrange(sum.len() as int, sum.len() as int + 8) =~= spec_u64_to_le_bytes(hash));
    assert(w.subrange(sum.len() as int + 8, sum.len() as int + 16) =~= spec_u64_to_le_bytes(
        spec_count_bits(count),
    ));
}

/// Copies `bytes[start..end]` into a fresh buffer.
fn copy_range(bytes: &Vec<u8>, start: usize, end: usize) -> (r: Vec<u8>)
    requires
        start <= end <= bytes@.len(),
    ensures
        r@ == bytes@.subrange(start as int, end as int),
{
    let mut r: Vec<u8> = Vec::new();
    let mut i: usize = start;
    while i < end
        invariant
            start <= i <= end <= bytes@.len(),
            r@.len() == i - start,
            forall|j: int| 0 <= j < r@.len() ==> r@[j] == bytes@[start + j],
        decreases end - i,
    {
        let x = bytes[i];
        r.push(x);
        i = i + 1;
    }
    proof {
        assert(r@ =~= bytes@.subrange(start as int, end as int));
    }
    r
}

/// A sample symbol type: a single 64-bit value, encoded as its eight
/// little-endian bytes and hashed with the default symbol hashing.
#[derive(Clone, Copy, Debug, PartialEq, Eq, Hash, Structural)]
pub struct SimpleSymbol {
    pub value: u64,
}

impl Symbol for SimpleSymbol {
    open spec fn spec_length() -> usize {
        8
    }

    open spec fn spec_encode(self) -> Seq<u8> {
        spec_u64_to_le_bytes(self.value)
    }

    open spec fn spec_decode(bytes: Seq<u8>) -> Self {
        SimpleSymbol { value: spec_u64_from_le_bytes(bytes) }
    }

    open spec fn spec_hash(self) -> u64 {
        spec_default_symbol_hash(spec_u64_to_le_bytes(self.value))
    }

    proof fn lemma_encode_length(self) {
        lemma_auto_spec_u64_to_from_le_bytes();
    }

    proof fn lemma_decode_encode(self) {
        lemma_auto_spec_u64_to_from_le_bytes();
    }

    fn byte_length() -> (r: usize) {
        8
    }

    fn encode_to_bytes(&self) -> (r: Vec<u8>) {
        u64_to_le_bytes(self.value)
    }

    fn decode_from_bytes(bytes: &Vec<u8>) -> (r: Self) {
        SimpleSymbol { value: u64_from_le_bytes(bytes.as_slice()) }
    }

    fn hash_(&self) -> (r: u64) {
        let encoded = self.encode_to_bytes();
        default_symbol_hash(&encoded)
    }
}

} // verus!
