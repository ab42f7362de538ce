//! What a type must offer to be kept in a list: its bytes, its alignment,
//! and the way back from bytes to a value.
use crate::native::{
    lemma_u16_ne_round_trip, lemma_u32_ne_round_trip, lemma_u64_ne_round_trip,
    spec_u16_from_ne_bytes, spec_u16_ne_bytes, spec_u32_from_ne_bytes, spec_u32_ne_bytes,
    spec_u64_from_ne_bytes, spec_u64_ne_bytes, u16_from_ne_bytes, u16_to_ne_bytes,
    u32_from_ne_bytes, u32_to_ne_bytes, u64_from_ne_bytes, u64_to_ne_bytes,
};
use vstd::arithmetic::power2::is_pow2;
use vstd::layout::{align_of, size_of};
use vstd::prelude::*;
use vstd::slice::slice_subrange;
use vstd::string::*;
use vstd::utf8::{decode_utf8, valid_utf8};

verus! {

/// A type whose values can be copied byte by byte into a list and read
/// back from those bytes.
///
/// The list keeps no mark of the type beside a payload. Reading one goes
/// by the type alone, and is right only for bytes that a value of the same
/// type left there.
pub trait CopyableUnsized {
    /// The value that reading a payload hands back.
    type Owned: View;

    /// The bytes that hold the value.
    spec fn spec_raw(&self) -> Seq<u8>;

    /// The alignment that the value asks for.
    spec fn spec_align(&self) -> nat;

    /// The value itself, as the view of what reading it back gives.
    spec fn spec_value(&self) -> <Self::Owned as View>::V;

    /// The value that the bytes hold, where they hold one.
    spec fn spec_construct(bytes: Seq<u8>) -> Option<<Self::Owned as View>::V>;

    /// The alignment is a power of two, and reading the bytes of a value
    /// gives the value.
    proof fn lemma_copyable(&self)
        ensures
            is_pow2(self.spec_align() as int),
            Self::spec_construct(self.spec_raw()) == Some(self.spec_value()),
    ;

    /// A copy of the bytes that hold the value.
    fn raw_bytes(&self) -> (r: Vec<u8>)
        ensures
            r@ == self.spec_raw(),
    ;

    /// The alignment that the value asks for.
    fn align_of_val(&self) -> (r: usize)
        ensures
            r == self.spec_align(),
    ;

    /// Reads a value from the bytes of a payload, where they hold one.
    fn construct_ptr(data: &[u8]) -> (r: Option<Self::Owned>)
        ensures
            match r {
                Some(v) => Self::spec_construct(data@) == Some(v@),
                None => Self::spec_construct(data@) is None,
            },
    ;
}

/// A type of fixed size whose values are their bytes: the thin types. Each
/// is a [`CopyableUnsized`], and so is a slice of them.
pub trait ThinCopy: Copy + View {
    /// The bytes that hold the value.
    spec fn spec_thin_raw(self) -> Seq<u8>;

    /// The value that the bytes hold.
    spec fn spec_thin_value(bytes: Seq<u8>) -> Self;

    /// The type takes at least one byte.
    proof fn lemma_thin_size()
        ensures
            0 < size_of::<Self>(),
    ;

    /// A value takes as many bytes as its type has, and reading them gives
    /// the value.
    proof fn lemma_thin(self)
        ensures
            self.spec_thin_raw().len() == size_of::<Self>(),
            Self::spec_thin_value(self.spec_thin_raw()) == self,
    ;

    /// Appends the bytes that hold the value.
    fn thin_raw(self, out: &mut Vec<u8>)
        ensures
            final(out)@ == old(out)@ + self.spec_thin_raw(),
    ;

    /// Reads a value from its bytes.
    fn thin_value(bytes: &[u8]) -> (r: Self)
        requires
            bytes@.len() == size_of::<Self>(),
        ensures
            r == Self::spec_thin_value(bytes@),
    ;
}

impl ThinCopy for u8 {
    open spec fn spec_thin_raw(self) -> Seq<u8> {
        seq![self]
    }

    open spec fn spec_thin_value(bytes: Seq<u8>) -> u8 {
        bytes[0]
    }

    proof fn lemma_thin_size() {
        broadcast use vstd::layout::layout_of_primitives;

    }

    proof fn lemma_thin(self) {
        broadcast use vstd::layout::layout_of_primitives;

    }

    fn thin_raw(self, out: &mut Vec<u8>) {
        out.push(self);
    }

    fn thin_value(bytes: &[u8]) -> (r: u8) {
        proof {
            broadcast use vstd::layout::layout_of_primitives;

        }
        bytes[0]
    }
}

impl ThinCopy for u16 {
    open spec fn spec_thin_raw(self) -> Seq<u8> {
        spec_u16_ne_bytes(self)
    }

    open spec fn spec_thin_value(bytes: Seq<u8>) -> u16 {
        spec_u16_from_ne_bytes(bytes)
    }

    proof fn lemma_thin_size() {
        broadcast use vstd::layout::layout_of_primitives;

    }

    proof fn lemma_thin(self) {
        broadcast use vstd::layout::layout_of_primitives;

        lemma_u16_ne_round_trip(self);
    }

    fn thin_raw(self, out: &mut Vec<u8>) {
        let a = u16_to_ne_bytes(self);
        proof {
            lemma_u16_ne_round_trip(self);
        }
        out.push(a[0]);
        out.push(a[1]);
        assert(out@ =~= old(out)@ + a@);
    }

    fn thin_value(bytes: &[u8]) -> (r: u16) {
        proof {
            broadcast use vstd::layout::layout_of_primitives;

        }
        let a: [u8; 2] = [bytes[0], bytes[1]];
        assert(a@ =~= bytes@);
        u16_from_ne_bytes(a)
    }
}

impl ThinCopy for u32 {
    open spec fn spec_thin_raw(self) -> Seq<u8> {
        spec_u32_ne_bytes(self)
    }

    open spec fn spec_thin_value(bytes: Seq<u8>) -> u32 {
        spec_u32_from_ne_bytes(bytes)
    }

    proof fn lemma_thin_size() {
        broadcast use vstd::layout::layout_of_primitives;

    }

    proof fn lemma_thin(self) {
        broadcast use vstd::layout::layout_of_primitives;

        lemma_u32_ne_round_trip(self);
    }

    fn thin_raw(self, out: &mut Vec<u8>) {
        let a = u32_to_ne_bytes(self);
        proof {
            lemma_u32_ne_round_trip(self);
        }
        out.push(a[0]);
        out.push(a[1]);
        out.push(a[2]);
        out.push(a[3]);
        assert(out@ =~= old(out)@ + a@);
    }

    fn thin_value(bytes: &[u8]) -> (r: u32) {
        proof {
            broadcast use vstd::layout::layout_of_primitives;

        }
        let a: [u8; 4] = [bytes[0], bytes[1], bytes[2], bytes[3]];
        assert(a@ =~= bytes@);
        u32_from_ne_bytes(a)
    }
}

impl ThinCopy for u64 {
    open spec fn spec_thin_raw(self) -> Seq<u8> {
        spec_u64_ne_bytes(self)
    }

    open spec fn spec_thin_value(bytes: Seq<u8>) -> u64 {
        spec_u64_from_ne_bytes(bytes)
    }

    proof fn lemma_thin_size() {
        broadcast use vstd::layout::layout_of_primitives;

    }

    proof fn lemma_thin(self) {
        broadcast use vstd::layout::layout_of_primitives;

        lemma_u64_ne_round_trip(self);
    }

    fn thin_raw(self, out: &mut Vec<u8>) {
        let a = u64_to_ne_bytes(self);
        proof {
            lemma_u64_ne_round_trip(self);
        }
        out.push(a[0]);
        out.push(a[1]);
        out.push(a[2]);
        out.push(a[3]);
        out.push(a[4]);
        out.push(a[5]);
        out.push(a[6]);
        out.push(a[7]);
        assert(out@ =~= old(out)@ + a@);
    }

    fn thin_value(bytes: &[u8]) -> (r: u64) {
        proof {
            broadcast use vstd::layout::layout_of_primitives;

        }
        let a: [u8; 8] = [
            bytes[0],
            bytes[1],
            bytes[2],
            bytes[3],
            bytes[4],
            bytes[5],
            bytes[6],
            bytes[7],
        ];
        assert(a@ =~= bytes@);
        u64_from_ne_bytes(a)
    }
}

impl ThinCopy for i8 {
    open spec fn spec_thin_raw(self) -> Seq<u8> {
        seq![self as u8]
    }

    open spec fn spec_thin_value(bytes: Seq<u8>) -> i8 {
        bytes[0] as i8
    }

    proof fn lemma_thin_size() {
        broadcast use vstd::layout::layout_of_primitives;

    }

    proof fn lemma_thin(self) {
        broadcast use vstd::layout::layout_of_primitives;

        assert((self as u8) as i8 == self) by (bit_vector);
    }

    fn thin_raw(self, out: &mut Vec<u8>) {
        out.push(self as u8);
    }

    fn thin_value(bytes: &[u8]) -> (r: i8) {
        proof {
            broadcast use vstd::layout::layout_of_primitives;

        }
        bytes[0] as i8
    }
}

impl ThinCopy for i16 {
    open spec fn spec_thin_raw(self) -> Seq<u8> {
        spec_u16_ne_bytes(self as u16)
    }

    open spec fn spec_thin_value(bytes: Seq<u8>) -> i16 {
        spec_u16_from_ne_bytes(bytes) as i16
    }

    proof fn lemma_thin_size() {
        broadcast use vstd::layout::layout_of_primitives;

    }

    proof fn lemma_thin(self) {
        broadcast use vstd::layout::layout_of_primitives;

        lemma_u16_ne_round_trip(self as u16);
        assert((self as u16) as i16 == self) by (bit_vector);
    }

    fn thin_raw(self, out: &mut Vec<u8>) {
        (self as u16).thin_raw(out);
    }

    fn thin_value(bytes: &[u8]) -> (r: i16) {
        proof {
            broadcast use vstd::layout::layout_of_primitives;

        }
        u16::thin_value(bytes) as i16
    }
}

impl ThinCopy for i32 {
    open spec fn spec_thin_raw(self) -> Seq<u8> {
        spec_u32_ne_bytes(self as u32)
    }

    open spec fn spec_thin_value(bytes: Seq<u8>) -> i32 {
        spec_u32_from_ne_bytes(bytes) as i32
    }

    proof fn lemma_thin_size() {
        broadcast use vstd::layout::layout_of_primitives;

    }

    proof fn lemma_thin(self) {
        broadcast use vstd::layout::layout_of_primitives;

        lemma_u32_ne_round_trip(self as u32);
        assert((self as u32) as i32 == self) by (bit_vector);
    }

    fn thin_raw(self, out: &mut Vec<u8>) {
        (self as u32).thin_raw(out);
    }

    fn thin_value(bytes: &[u8]) -> (r: i32) {
        proof {
            broadcast use vstd::layout::layout_of_primitives;

        }
        u32::thin_value(bytes) as i32
    }
}

impl ThinCopy for i64 {
    open spec fn spec_thin_raw(self) -> Seq<u8> {
        spec_u64_ne_bytes(self as u64)
    }

    open spec fn spec_thin_value(bytes: Seq<u8>) -> i64 {
        spec_u64_from_ne_bytes(bytes) as i64
    }

    proof fn lemma_thin_size() {
        broadcast use vstd::layout::layout_of_primitives;

    }

    proof fn lemma_thin(self) {
        broadcast use vstd::layout::layout_of_primitives;

        lemma_u64_ne_round_trip(self as u64);
        assert((self as u64) as i64 == self) by (bit_vector);
    }

    fn thin_raw(self, out: &mut Vec<u8>) {
        (self as u64).thin_raw(out);
    }

    fn thin_value(bytes: &[u8]) -> (r: i64) {
        proof {
            broadcast use vstd::layout::layout_of_primitives;

        }
        u64::thin_value(bytes) as i64
    }
}

impl<T: ThinCopy> CopyableUnsized for T {
    type Owned = T;

    open spec fn spec_raw(&self) -> Seq<u8> {
        self.spec_thin_raw()
    }

    open spec fn spec_align(&self) -> nat {
        align_of::<T>()
    }

    open spec fn spec_value(&self) -> T::V {
        self.view()
    }

    open spec fn spec_construct(bytes: Seq<u8>) -> Option<T::V> {
        if bytes.len() == size_of::<T>() {
            Some(T::spec_thin_value(bytes).view())
        } else {
            None
        }
    }

    proof fn lemma_copyable(&self) {
        broadcast use vstd::layout::align_properties;

        self.lemma_thin();
    }

    fn raw_bytes(&self) -> (r: Vec<u8>) {
        let mut out: Vec<u8> = Vec::new();
        (*self).thin_raw(&mut out);
        assert(out@ =~= self.spec_thin_raw());
        out
    }

    fn align_of_val(&self) -> (r: usize) {
        core::mem::align_of::<T>()
    }

    fn construct_ptr(data: &[u8]) -> (r: Option<T>) {
        if data.len() == core::mem::size_of::<T>() {
            Some(T::thin_value(data))
        } else {
            None
        }
    }
}

/// The bytes that hold the values of `s`, one value after another.
pub open spec fn thin_raw_of<T: ThinCopy>(s: Seq<T>) -> Seq<u8>
    decreases s.len(),
{
    if s.len() == 0 {
        Seq::empty()
    } else {
        thin_raw_of(s.drop_last()) + s.last().spec_thin_raw()
    }
}

/// The values that `bytes` hold, each in as many bytes as `T` has.
pub open spec fn thin_values_of<T: ThinCopy>(bytes: Seq<u8>) -> Seq<T> {
    Seq::new(
        bytes.len() / size_of::<T>(),
        |i: int|
            T::spec_thin_value(bytes.subrange(i * size_of::<T>(), (i + 1) * size_of::<T>())),
    )
}

/// The bytes of `n` values are `n` times the bytes of one, and those of the
/// value at `i` lie `i` values from the start.
pub proof fn lemma_thin_raw_of<T: ThinCopy>(s: Seq<T>)
    ensures
        thin_raw_of(s).len() == s.len() * size_of::<T>(),
        forall|i: int|
            0 <= i < s.len() ==> #[trigger] thin_raw_of(s).subrange(
                i * size_of::<T>(),
                (i + 1) * size_of::<T>(),
            ) == s[i].spec_thin_raw(),
    decreases s.len(),
{
    let z = size_of::<T>() as int;
    if s.len() > 0 {
        let front = s.drop_last();
        let n = s.len() as int;
        lemma_thin_raw_of(front);
        s.last().lemma_thin();
        assert((n - 1) * z + z == n * z) by (nonlinear_arith);
        assert forall|i: int| 0 <= i < s.len() implies #[trigger] thin_raw_of(s).subrange(
            i * z,
            (i + 1) * z,
        ) == s[i].spec_thin_raw() by {
            assert(0 <= i * z && (i + 1) * z == i * z + z) by (nonlinear_arith)
                requires
                    0 <= i,
                    0 <= z,
            ;
            if i < n - 1 {
                assert((i + 1) * z <= (n - 1) * z) by (nonlinear_arith)
                    requires
                        i + 1 <= n - 1,
                        0 <= z,
                ;
                assert(thin_raw_of(s).subrange(i * z, (i + 1) * z) =~= thin_raw_of(
                    front,
                ).subrange(i * z, (i + 1) * z));
                assert(front[i] == s[i]);
            } else {
                assert(thin_raw_of(s).subrange(i * z, (i + 1) * z) =~= s.last().spec_thin_raw());
            }
        }
    }
}

/// Reading the bytes of a run of values gives the values.
pub proof fn lemma_thin_round_trip<T: ThinCopy>(s: Seq<T>)
    ensures
        thin_raw_of(s).len() % size_of::<T>() == 0,
        thin_values_of::<T>(thin_raw_of(s)) == s,
{
    let z = size_of::<T>() as int;
    let n = s.len() as int;
    T::lemma_thin_size();
    lemma_thin_raw_of(s);
    assert((n * z) % z == 0 && (n * z) / z == n) by (nonlinear_arith)
        requires
            0 < z,
            0 <= n,
    ;
    assert forall|i: int| 0 <= i < n implies thin_values_of::<T>(thin_raw_of(s))[i] == s[i] by {
        s[i].lemma_thin();
    }
    assert(thin_values_of::<T>(thin_raw_of(s)) =~= s);
}

impl<T: ThinCopy> CopyableUnsized for [T] {
    type Owned = Vec<T>;

    open spec fn spec_raw(&self) -> Seq<u8> {
        thin_raw_of(self@)
    }

    open spec fn spec_align(&self) -> nat {
        align_of::<T>()
    }

    open spec fn spec_value(&self) -> Seq<T> {
        self@
    }

    open spec fn spec_construct(bytes: Seq<u8>) -> Option<Seq<T>> {
        if bytes.len() % size_of::<T>() == 0 {
            Some(thin_values_of::<T>(bytes))
        } else {
            None
        }
    }

    proof fn lemma_copyable(&self) {
        broadcast use vstd::layout::align_properties;

        lemma_thin_round_trip(self@);
    }

    fn raw_bytes(&self) -> (r: Vec<u8>) {
        let mut out: Vec<u8> = Vec::new();
        let mut i: usize = 0;
        while i < self.len()
            invariant
                i <= self@.len(),
                out@ == thin_raw_of(self@.subrange(0, i as int)),
            decreases self@.len() - i,
        {
            assert(self@.subrange(0, i + 1).drop_last() =~= self@.subrange(0, i as int));
            self[i].thin_raw(&mut out);
            i = i + 1;
        }
        assert(self@.subrange(0, self@.len() as int) =~= self@);
        out
    }

    fn align_of_val(&self) -> (r: usize) {
        core::mem::align_of::<T>()
    }

    fn construct_ptr(data: &[u8]) -> (r: Option<Vec<T>>) {
        let size = core::mem::size_of::<T>();
        proof {
            T::lemma_thin_size();
        }
        if data.len() % size != 0 {
            return None;
        }
        let count = data.len() / size;
        let ghost z = size as int;
        let ghost len = data@.len() as int;
        assert(len == count * z) by (nonlinear_arith)
            requires
                0 < z,
                0 <= len,
                len % z == 0,
                count == len / z,
        ;
        let mut out: Vec<T> = Vec::new();
        let mut i: usize = 0;
        while i < count
            invariant
                i <= count,
                0 < size,
                z == size,
                z == size_of::<T>(),
                len == data@.len(),
                len <= usize::MAX,
                len == count * z,
                count == len / z,
                out@ == thin_values_of::<T>(data@).subrange(0, i as int),
            decreases count - i,
        {
            assert(0 <= i * z <= (i + 1) * z && (i + 1) * z == i * z + z && (i + 1) * z <= count
                * z) by (nonlinear_arith)
                requires
                    0 <= i,
                    i + 1 <= count,
                    0 < z,
            ;
            let item = T::thin_value(slice_subrange(data, i * size, (i + 1) * size));
            out.push(item);
            assert(out@ =~= thin_values_of::<T>(data@).subrange(0, i + 1));
            i = i + 1;
        }
        assert(out@ =~= thin_values_of::<T>(data@));
        Some(out)
    }
}

/// Calls `core::str::from_utf8`, which gives the text that the bytes hold
/// where they are valid UTF-8, and an error where they are not.
#[verifier::external_body]
fn str_from_utf8(data: &[u8]) -> (r: Option<&str>)
    ensures
        match r {
            Some(s) => valid_utf8(data@) && s.spec_bytes() == data@,
            None => !valid_utf8(data@),
        },
{
    core::str::from_utf8(data).ok()
}

impl CopyableUnsized for str {
    type Owned = String;

    open spec fn spec_raw(&self) -> Seq<u8> {
        self.spec_bytes()
    }

    open spec fn spec_align(&self) -> nat {
        1
    }

    open spec fn spec_value(&self) -> Seq<char> {
        self@
    }

    open spec fn spec_construct(bytes: Seq<u8>) -> Option<Seq<char>> {
        if valid_utf8(bytes) {
            Some(decode_utf8(bytes))
        } else {
            None
        }
    }

    proof fn lemma_copyable(&self) {
        reveal(is_pow2);
        vstd::utf8::encode_utf8_valid_utf8(self@);
        vstd::utf8::encode_utf8_decode_utf8(self@);
    }

    fn raw_bytes(&self) -> (r: Vec<u8>) {
        self.as_bytes_vec()
    }

    fn align_of_val(&self) -> (r: usize) {
        proof {
            broadcast use vstd::layout::layout_of_str, vstd::layout::align_of_u8;

        }
        core::mem::align_of_val(self)
    }

    fn construct_ptr(data: &[u8]) -> (r: Option<String>) {
        match str_from_utf8(data) {
            Some(s) => {
                proof {
                    vstd::utf8::encode_utf8_decode_utf8(s@);
                }
                Some(s.to_owned())
            },
            None => None,
        }
    }
}

} // verus!
