use vstd::bytes::{
    lemma_auto_spec_u64_to_from_le_bytes, spec_u64_from_le_bytes, spec_u64_to_le_bytes_open,
    spec_u64_to_le_bytes_to_open, u64_from_le_bytes, u64_to_le_bytes,
};
use vstd::prelude::*;
use vstd::array::array_as_slice;
use vstd::slice::slice_subrange;

verus! {

broadcast use vstd::array::group_array_axioms;

/// Why a value could not be read.
#[derive(Debug, Clone, Copy, PartialEq, Eq, Structural)]
pub enum SerdeError {
    /// Fewer bytes remain than one encoded value takes.
    Truncated,
    /// The bytes have the right length but encode no value of the type.
    Malformed,
    /// The type has no decoder for the requested byte convention.
    UnsupportedFormat,
}

/// A value with a fixed-width byte encoding.
///
/// Every value encodes to exactly `encoded_len()` bytes, and decoding those
/// bytes gives the value back.
pub trait FieldSerde: Sized {
    /// How many bytes one encoded value takes.
    spec fn encoded_len() -> nat;

    /// The bytes that `serialize_into` writes for this value.
    spec fn encoding(&self) -> Seq<u8>;

    /// The value that exactly `encoded_len()` bytes decode to, if any.
    spec fn decoding(bytes: Seq<u8>) -> Option<Self>;

    /// Whether the type reads the external elliptic-curve byte convention.
    spec fn reads_ecc_format() -> bool;

    /// Every encoding has the declared width.
    proof fn lemma_encoding_len(&self)
        ensures
            self.encoding().len() == Self::encoded_len(),
    ;

    /// Decoding an encoding gives the value back.
    proof fn lemma_decode_encoding(&self)
        ensures
            Self::decoding(self.encoding()) == Some(*self),
    ;

    /// Appends the encoding of `self` to `writer`.
    fn serialize_into(&self, writer: &mut Vec<u8>)
        ensures
            final(writer)@ == old(writer)@ + self.encoding(),
    ;

    /// The width of one encoded value.
    fn serialized_size() -> (r: usize)
        requires
            Self::encoded_len() <= usize::MAX,
        ensures
            r == Self::encoded_len(),
    ;

    /// Reads one value from `bytes` at `*pos` and moves `*pos` past it; on an
    /// error `*pos` is left as it was.
    fn deserialize_from(bytes: &[u8], pos: &mut usize) -> (r: Result<Self, SerdeError>)
        ensures
            *old(pos) + Self::encoded_len() > bytes@.len() ==> r == Err::<Self, SerdeError>(
                SerdeError::Truncated,
            ),
            *old(pos) + Self::encoded_len() <= bytes@.len() ==> r == match Self::decoding(
                bytes@.subrange(*old(pos) as int, *old(pos) + Self::encoded_len()),
            ) {
                Some(v) => Ok(v),
                None => Err(SerdeError::Malformed),
            },
            *final(pos) == (if r is Ok {
                *old(pos) + Self::encoded_len()
            } else {
                *old(pos) as int
            }),
    ;

    /// Reads one value in the external elliptic-curve byte convention, where
    /// the type has a decoder for it.
    fn try_deserialize_from_ecc_format(bytes: &[u8], pos: &mut usize) -> (r: Result<
        Self,
        SerdeError,
    >)
        ensures
            !Self::reads_ecc_format() ==> r == Err::<Self, SerdeError>(
                SerdeError::UnsupportedFormat,
            ) && *final(pos) == *old(pos),
            r is Err ==> *final(pos) == *old(pos),
    ;
}

/// What `T::deserialize_from` returns when it reads `bytes` at `pos`.
pub open spec fn read_at<T: FieldSerde>(bytes: Seq<u8>, pos: int) -> Result<T, SerdeError> {
    if pos < 0 || pos + T::encoded_len() > bytes.len() {
        Err(SerdeError::Truncated)
    } else {
        match T::decoding(bytes.subrange(pos, pos + T::encoded_len())) {
            Some(v) => Ok(v),
            None => Err(SerdeError::Malformed),
        }
    }
}

/// Round trip: whatever bytes stand before and after it, the encoding of `x`
/// that `serialize_into` appends is exactly `serialized_size()` bytes long,
/// and `deserialize_from` at its start reads `x` back and moves past it.
pub proof fn lemma_round_trip<T: FieldSerde>(x: T, before: Seq<u8>, after: Seq<u8>)
    ensures
        x.encoding().len() == T::encoded_len(),
        read_at::<T>(before + x.encoding() + after, before.len() as int) == Ok::<T, SerdeError>(
            x,
        ),
{
    x.lemma_encoding_len();
    x.lemma_decode_encoding();
    let bytes = before + x.encoding() + after;
    let start = before.len() as int;
    assert(bytes.subrange(start, start + T::encoded_len()) =~= x.encoding());
}

impl FieldSerde for u64 {
    open spec fn encoded_len() -> nat {
        8
    }

    /// Least significant byte first.
    open spec fn encoding(&self) -> Seq<u8> {
        spec_u64_to_le_bytes_open(*self)
    }

    open spec fn decoding(bytes: Seq<u8>) -> Option<u64> {
        if bytes.len() == 8 {
            Some(spec_u64_from_le_bytes(bytes))
        } else {
            None
        }
    }

    open spec fn reads_ecc_format() -> bool {
        false
    }

    proof fn lemma_encoding_len(&self) {
    }

    proof fn lemma_decode_encoding(&self) {
        lemma_auto_spec_u64_to_from_le_bytes();
        spec_u64_to_le_bytes_to_open(*self);
    }

    fn serialize_into(&self, writer: &mut Vec<u8>) {
        let mut le = u64_to_le_bytes(*self);
        proof {
            spec_u64_to_le_bytes_to_open(*self);
        }
        writer.append(&mut le);
    }

    fn serialized_size() -> (r: usize) {
        8
    }

    fn deserialize_from(bytes: &[u8], pos: &mut usize) -> (r: Result<u64, SerdeError>) {
        let start = *pos;
        if bytes.len() < 8 || start > bytes.len() - 8 {
            return Err(SerdeError::Truncated);
        }
        let v = u64_from_le_bytes(slice_subrange(bytes, start, start + 8));
        *pos = start + 8;
        Ok(v)
    }

    fn try_deserialize_from_ecc_format(bytes: &[u8], pos: &mut usize) -> (r: Result<
        u64,
        SerdeError,
    >) {
        Err(SerdeError::UnsupportedFormat)
    }
}

/// The encodings of `items`, one after another in index order, with no
/// padding and no length prefix.
pub open spec fn encode_all<T: FieldSerde>(items: Seq<T>) -> Seq<u8>
    decreases items.len(),
{
    if items.len() == 0 {
        Seq::empty()
    } else {
        encode_all(items.drop_last()) + items.last().encoding()
    }
}

/// The `i`-th run of `width` bytes of `bytes`.
pub open spec fn chunk(bytes: Seq<u8>, i: int, width: nat) -> Seq<u8> {
    bytes.subrange(i * width, (i + 1) * width)
}

/// What the first `n` runs of `bytes`, each as wide as one `T`, decode to.
pub open spec fn decoded_seq<T: FieldSerde>(bytes: Seq<u8>, n: nat) -> Seq<T> {
    Seq::new(n, |i: int| T::decoding(chunk(bytes, i, T::encoded_len())).unwrap())
}

/// What `n` values of `T` written back to back as `bytes` decode to: `None`
/// where `bytes` has the wrong length or one of the runs decodes to nothing.
pub open spec fn decode_all<T: FieldSerde>(bytes: Seq<u8>, n: nat) -> Option<Seq<T>> {
    if bytes.len() == T::encoded_len() * n && forall|i: int|
        0 <= i < n ==> T::decoding(#[trigger] chunk(bytes, i, T::encoded_len())) is Some {
        Some(decoded_seq::<T>(bytes, n))
    } else {
        None
    }
}

proof fn lemma_encode_all<T: FieldSerde>(items: Seq<T>)
    ensures
        encode_all(items).len() == T::encoded_len() * items.len(),
        forall|i: int|
            0 <= i < items.len() ==> #[trigger] chunk(encode_all(items), i, T::encoded_len())
                == items[i].encoding(),
    decreases items.len(),
{
    let w = T::encoded_len();
    let n = items.len();
    if n > 0 {
        let init = items.drop_last();
        lemma_encode_all(init);
        items.last().lemma_encoding_len();
        let e = encode_all(items);
        assert(w * (n - 1) + w == w * n) by (nonlinear_arith);
        assert forall|i: int| 0 <= i < n implies #[trigger] chunk(e, i, w)
            == items[i].encoding() by {
            if i < n - 1 {
                assert((i + 1) * w <= w * (n - 1)) by (nonlinear_arith)
                    requires
                        i + 1 <= n - 1,
                ;
                assert(0 <= i * w <= (i + 1) * w) by (nonlinear_arith)
                    requires
                        0 <= i,
                ;
                assert(e == encode_all(init) + items.last().encoding());
                assert(chunk(encode_all(init), i, w) == init[i].encoding());
                assert(chunk(e, i, w) =~= chunk(encode_all(init), i, w));
            } else {
                assert(i * w == w * (n - 1) && (i + 1) * w == w * n) by (nonlinear_arith)
                    requires
                        i == n - 1,
                ;
                assert(e == encode_all(init) + items.last().encoding());
                assert(chunk(e, i, w) =~= items.last().encoding());
            }
        }
    }
}

/// Round trip for runs: the values that `serialize_all` writes back to back
/// take `encoded_len()` bytes each, and `deserialize_all` reads the same
/// values back, in the same order.
pub proof fn lemma_round_trip_all<T: FieldSerde>(items: Seq<T>)
    ensures
        encode_all(items).len() == T::encoded_len() * items.len(),
        decode_all::<T>(encode_all(items), items.len()) == Some(items),
{
    let bytes = encode_all(items);
    lemma_encode_all(items);
    assert forall|i: int| 0 <= i < items.len() implies T::decoding(
        #[trigger] chunk(bytes, i, T::encoded_len()),
    ) == Some(items[i]) by {
        items[i].lemma_decode_encoding();
    }
    assert(decoded_seq::<T>(bytes, items.len()) =~= items);
}

proof fn lemma_chunk_of_window(bytes: Seq<u8>, start: int, w: nat, n: nat, j: int)
    requires
        0 <= start,
        0 <= j < n,
        start + w * n <= bytes.len(),
    ensures
        0 <= w * j,
        w * j + w == w * (j + 1) <= w * n,
        chunk(bytes.subrange(start, start + w * n), j, w) == bytes.subrange(
            start + w * j,
            start + w * (j + 1),
        ),
{
    assert(0 <= w * j) by (nonlinear_arith)
        requires
            0 <= j,
    ;
    assert(w * (j + 1) <= w * n) by (nonlinear_arith)
        requires
            j + 1 <= n,
    ;
    assert(w * j + w == w * (j + 1)) by (nonlinear_arith);
    assert(j * w == w * j && (j + 1) * w == w * (j + 1)) by (nonlinear_arith);
    assert(chunk(bytes.subrange(start, start + w * n), j, w) =~= bytes.subrange(
        start + w * j,
        start + w * (j + 1),
    ));
}

/// Appends the encodings of `items` to `writer`, in index order.
pub fn serialize_all<T: FieldSerde>(items: &[T], writer: &mut Vec<u8>)
    ensures
        final(writer)@ == old(writer)@ + encode_all(items@),
{
    let n = items.len();
    let mut i: usize = 0;
    while i < n
        invariant
            i <= n,
            n == items@.len(),
            writer@ == old(writer)@ + encode_all(items@.take(i as int)),
        decreases n - i,
    {
        items[i].serialize_into(writer);
        proof {
            assert(items@.take(i + 1).drop_last() =~= items@.take(i as int));
            assert(writer@ =~= old(writer)@ + encode_all(items@.take(i + 1)));
        }
        i = i + 1;
    }
    assert(items@.take(n as int) =~= items@);
}

/// Reads `n` values written back to back, starting at `*pos`, and moves
/// `*pos` past them; on an error `*pos` is left as it was.
pub fn deserialize_all<T: FieldSerde>(bytes: &[u8], pos: &mut usize, n: usize) -> (r: Result<
    Vec<T>,
    SerdeError,
>)
    ensures
        match r {
            Ok(items) => {
                &&& *old(pos) + T::encoded_len() * n <= bytes@.len()
                &&& decode_all::<T>(
                    bytes@.subrange(*old(pos) as int, *old(pos) + T::encoded_len() * n),
                    n as nat,
                ) == Some(items@)
                &&& *final(pos) == *old(pos) + T::encoded_len() * n
            },
            Err(e) => {
                &&& *final(pos) == *old(pos)
                &&& if *old(pos) + T::encoded_len() * n > bytes@.len() {
                    e == SerdeError::Truncated
                } else {
                    &&& e == SerdeError::Malformed
                    &&& decode_all::<T>(
                        bytes@.subrange(*old(pos) as int, *old(pos) + T::encoded_len() * n),
                        n as nat,
                    ) is None
                }
            },
        },
{
    let ghost w = T::encoded_len();
    let start = *pos;
    if start > bytes.len() {
        assert(w * n >= 0) by (nonlinear_arith);
        return Err(SerdeError::Truncated);
    }
    let mut cur = start;
    let mut items: Vec<T> = Vec::new();
    let mut i: usize = 0;
    while i < n
        invariant
            i <= n,
            start == *old(pos),
            w == T::encoded_len(),
            cur == start + w * i,
            cur <= bytes@.len(),
            items@.len() == i,
            forall|j: int|
                0 <= j < i ==> T::decoding(
                    #[trigger] bytes@.subrange(start + w * j, start + w * (j + 1)),
                ) == Some(items@[j]),
        decreases n - i,
    {
        assert(w * i + w == w * (i + 1) <= w * n) by (nonlinear_arith)
            requires
                i + 1 <= n,
        ;
        match T::deserialize_from(bytes, &mut cur) {
            Ok(v) => {
                items.push(v);
            },
            Err(e) => {
                if e == SerdeError::Truncated {
                    return Err(SerdeError::Truncated);
                }
                let len = bytes.len();
                let width = T::serialized_size();
                let total = width.checked_mul(n);
                if total.is_none() || total.unwrap() > len - start {
                    return Err(SerdeError::Truncated);
                }
                proof {
                    lemma_chunk_of_window(bytes@, start as int, w, n as nat, i as int);
                }
                return Err(SerdeError::Malformed);
            },
        }
        i = i + 1;
    }
    let ghost whole = bytes@.subrange(start as int, start + w * n);
    assert forall|j: int| 0 <= j < n implies T::decoding(#[trigger] chunk(whole, j, w))
        == Some(items@[j]) by {
        lemma_chunk_of_window(bytes@, start as int, w, n as nat, j);
    }
    *pos = cur;
    assert(items@ =~= decoded_seq::<T>(whole, n as nat));
    Ok(items)
}

/// Relies on `<[T; N] as TryFrom<Vec<T>>>::try_from`: it succeeds exactly when
/// the vector holds `N` elements, and then moves them into the array in order.
#[verifier::external_body]
fn vec_into_array<T, const N: usize>(v: Vec<T>) -> (r: Option<[T; N]>)
    ensures
        r is Some <==> v@.len() == N,
        r matches Some(a) ==> a@ == v@,
{
    <[T; N]>::try_from(v).ok()
}

impl<T: FieldSerde, const N: usize> FieldSerde for [T; N] {
    open spec fn encoded_len() -> nat {
        T::encoded_len() * (N as nat)
    }

    open spec fn encoding(&self) -> Seq<u8> {
        encode_all(self@)
    }

    open spec fn decoding(bytes: Seq<u8>) -> Option<[T; N]> {
        match decode_all::<T>(bytes, N as nat) {
            Some(items) => Some(choose|a: [T; N]| a@ == items),
            None => None,
        }
    }

    open spec fn reads_ecc_format() -> bool {
        false
    }

    proof fn lemma_encoding_len(&self) {
        lemma_encode_all(self@);
    }

    proof fn lemma_decode_encoding(&self) {
        lemma_round_trip_all(self@);
        let a = choose|a: [T; N]| a@ == self@;
        assert(a =~= *self);
    }

    fn serialize_into(&self, writer: &mut Vec<u8>) {
        serialize_all(array_as_slice(self), writer);
    }

    fn serialized_size() -> (r: usize) {
        if N == 0 {
            return 0;
        }
        assert(T::encoded_len() <= T::encoded_len() * N) by (nonlinear_arith)
            requires
                N >= 1,
        ;
        let w = T::serialized_size();
        w * N
    }

    fn deserialize_from(bytes: &[u8], pos: &mut usize) -> (r: Result<[T; N], SerdeError>) {
        let start = *pos;
        match deserialize_all::<T>(bytes, pos, N) {
            Ok(items) => {
                let ghost seen = items@;
                match vec_into_array::<T, N>(items) {
                    Some(a) => {
                        proof {
                            let b = choose|b: [T; N]| b@ == seen;
                            assert(a@ == seen);
                            assert(b =~= a);
                        }
                        Ok(a)
                    },
                    None => {
                        *pos = start;
                        Err(SerdeError::Malformed)
                    },
                }
            },
            Err(e) => Err(e),
        }
    }

    fn try_deserialize_from_ecc_format(bytes: &[u8], pos: &mut usize) -> (r: Result<
        [T; N],
        SerdeError,
    >) {
        Err(SerdeError::UnsupportedFormat)
    }
}

} // verus!
