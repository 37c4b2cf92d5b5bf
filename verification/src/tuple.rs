//! The codecs of tuples of one to seven members: the encodings of the members
//! one after the other, in order, with nothing between them.
//!
//! The width of a tuple is the sum of the widths of its members, and a member
//! starts where the tuple of the members before it would end: the third member
//! of any tuple at `<(A, B)>::width()`.
use crate::Pack;
use vstd::prelude::*;

verus! {

/// One step of packing a tuple into a buffer that held `initial` at first.
/// `done` is what the members before this one encode to, and `before` holds it
/// in front of the untouched rest of `initial`. Writing `member` over the front
/// of what lies behind `done` gives `after`, which then holds `done + member`
/// in front of the untouched rest of `initial`.
proof fn lemma_member_packed(
    initial: Seq<u8>,
    before: Seq<u8>,
    after: Seq<u8>,
    done: Seq<u8>,
    member: Seq<u8>,
)
    requires
        done.len() + member.len() <= initial.len(),
        before == done + initial.skip(done.len() as int),
        after == before.subrange(0, done.len() as int) + (member + before.subrange(
            done.len() as int,
            before.len() as int,
        ).skip(member.len() as int)),
    ensures
        after == done + member + initial.skip((done.len() + member.len()) as int),
{
    assert(after =~= done + member + initial.skip((done.len() + member.len()) as int));
}

impl<A: Pack> Pack for (A,) {
    const SIZE: usize = A::SIZE;

    open spec fn width() -> nat {
        A::width()
    }

    open spec fn encoding(&self) -> Seq<u8> {
        self.0.encoding()
    }

    open spec fn decoding(bytes: Seq<u8>) -> Self {
        (
            A::decoding(bytes.subrange(0, <(A,)>::width() as int)),
        )
    }

    open spec fn representable(&self) -> bool {
        self.0.representable()
    }

    proof fn lemma_size() {
        A::lemma_size();
        if Self::width() <= usize::MAX {
            assert(Self::SIZE == A::SIZE);
        }
    }

    proof fn lemma_encoding_len(&self) {
        self.0.lemma_encoding_len();
    }

    proof fn lemma_round_trip(&self) {
        self.0.lemma_encoding_len();
        self.0.lemma_round_trip();
        let bytes: Seq<u8> = self.encoding();
        assert(bytes.subrange(0, <(A,)>::width() as int) =~= self.0.encoding());
    }

    proof fn lemma_decoding_representable(bytes: Seq<u8>) {
        A::lemma_decoding_representable(bytes.subrange(0, <(A,)>::width() as int));
    }

    fn pack(&self, buf: &mut [u8]) {
        proof {
            A::lemma_size();
            self.0.lemma_encoding_len();
            assert(Self::width() == A::width());
            assert(buf@.len() == buf.len());
            assert(buf@ =~= Seq::<u8>::empty() + buf@.skip(0));
        }
        let ghost mut done: Seq<u8> = Seq::empty();
        let i: usize = 0;
        let ghost before: Seq<u8> = buf@;
        {
            let (_, rest) = buf.split_at_mut(i);
            self.0.pack(rest);
        }
        proof {
            lemma_member_packed(old(buf)@, before, buf@, done, self.0.encoding());
            done = done + self.0.encoding();
        }
        assert(done =~= self.encoding());
    }

    fn unpack(buf: &[u8]) -> Self {
        proof {
            A::lemma_size();
            assert(Self::width() == A::width());
        }
        let ghost bytes: Seq<u8> = buf@.take(Self::width() as int);
        let mut rest = buf;
        let ghost before: Seq<u8> = rest@;
        let a = A::unpack_it_unchecked(&mut rest);
        assert(bytes.subrange(0, <(A,)>::width() as int) =~= before.take(A::width() as int));
        (a,)
    }
}

impl<A: Pack, B: Pack> Pack for (A, B) {
    const SIZE: usize = A::SIZE + B::SIZE;

    open spec fn width() -> nat {
        A::width() + B::width()
    }

    open spec fn encoding(&self) -> Seq<u8> {
        self.0.encoding() + self.1.encoding()
    }

    open spec fn decoding(bytes: Seq<u8>) -> Self {
        (
            A::decoding(bytes.subrange(0, <(A,)>::width() as int)),
            B::decoding(bytes.subrange(<(A,)>::width() as int, <(A, B)>::width() as int)),
        )
    }

    open spec fn representable(&self) -> bool {
        self.0.representable() && self.1.representable()
    }

    proof fn lemma_size() {
        A::lemma_size();
        B::lemma_size();
        if Self::width() <= usize::MAX {
            assert(Self::SIZE == A::SIZE + B::SIZE);
        }
    }

    proof fn lemma_encoding_len(&self) {
        self.0.lemma_encoding_len();
        self.1.lemma_encoding_len();
    }

    proof fn lemma_round_trip(&self) {
        self.0.lemma_encoding_len();
        self.1.lemma_encoding_len();
        self.0.lemma_round_trip();
        self.1.lemma_round_trip();
        let bytes: Seq<u8> = self.encoding();
        assert(bytes.subrange(0, <(A,)>::width() as int) =~= self.0.encoding());
        assert(bytes.subrange(<(A,)>::width() as int, <(A, B)>::width() as int)
            =~= self.1.encoding());
    }

    proof fn lemma_decoding_representable(bytes: Seq<u8>) {
        A::lemma_decoding_representable(bytes.subrange(0, <(A,)>::width() as int));
        B::lemma_decoding_representable(
            bytes.subrange(<(A,)>::width() as int, <(A, B)>::width() as int),
        );
    }

    fn pack(&self, buf: &mut [u8]) {
        proof {
            A::lemma_size();
            B::lemma_size();
            self.0.lemma_encoding_len();
            self.1.lemma_encoding_len();
            assert(Self::width() == A::width() + B::width());
            assert(buf@.len() == buf.len());
            assert(buf@ =~= Seq::<u8>::empty() + buf@.skip(0));
        }
        let ghost mut done: Seq<u8> = Seq::empty();
        let mut i: usize = 0;
        let ghost before: Seq<u8> = buf@;
        {
            let (_, rest) = buf.split_at_mut(i);
            self.0.pack(rest);
        }
        proof {
            lemma_member_packed(old(buf)@, before, buf@, done, self.0.encoding());
            done = done + self.0.encoding();
        }
        i += A::SIZE;
        let ghost before: Seq<u8> = buf@;
        {
            let (_, rest) = buf.split_at_mut(i);
            self.1.pack(rest);
        }
        proof {
            lemma_member_packed(old(buf)@, before, buf@, done, self.1.encoding());
            done = done + self.1.encoding();
        }
        assert(done =~= self.encoding());
    }

    fn unpack(buf: &[u8]) -> Self {
        proof {
            A::lemma_size();
            B::lemma_size();
            assert(Self::width() == A::width() + B::width());
        }
        let ghost bytes: Seq<u8> = buf@.take(Self::width() as int);
        let mut rest = buf;
        let ghost before: Seq<u8> = rest@;
        let a = A::unpack_it_unchecked(&mut rest);
        assert(bytes.subrange(0, <(A,)>::width() as int) =~= before.take(A::width() as int));
        let ghost before: Seq<u8> = rest@;
        let b = B::unpack_it_unchecked(&mut rest);
        assert(bytes.subrange(<(A,)>::width() as int, <(A, B)>::width() as int)
            =~= before.take(B::width() as int));
        (a, b)
    }
}

impl<A: Pack, B: Pack, C: Pack> Pack for (A, B, C) {
    const SIZE: usize = A::SIZE + B::SIZE + C::SIZE;

    open spec fn width() -> nat {
        A::width() + B::width() + C::width()
    }

    open spec fn encoding(&self) -> Seq<u8> {
        self.0.encoding() + self.1.encoding() + self.2.encoding()
    }

    open spec fn decoding(bytes: Seq<u8>) -> Self {
        (
            A::decoding(bytes.subrange(0, <(A,)>::width() as int)),
            B::decoding(bytes.subrange(<(A,)>::width() as int, <(A, B)>::width() as int)),
            C::decoding(bytes.subrange(<(A, B)>::width() as int, <(A, B, C)>::width() as int)),
        )
    }

    open spec fn representable(&self) -> bool {
        self.0.representable() && self.1.representable() && self.2.representable()
    }

    proof fn lemma_size() {
        A::lemma_size();
        B::lemma_size();
        C::lemma_size();
        if Self::width() <= usize::MAX {
            assert(Self::SIZE == A::SIZE + B::SIZE + C::SIZE);
        }
    }

    proof fn lemma_encoding_len(&self) {
        self.0.lemma_encoding_len();
        self.1.lemma_encoding_len();
        self.2.lemma_encoding_len();
    }

    proof fn lemma_round_trip(&self) {
        self.0.lemma_encoding_len();
        self.1.lemma_encoding_len();
        self.2.lemma_encoding_len();
        self.0.lemma_round_trip();
        self.1.lemma_round_trip();
        self.2.lemma_round_trip();
        let bytes: Seq<u8> = self.encoding();
        assert(bytes.subrange(0, <(A,)>::width() as int) =~= self.0.encoding());
        assert(bytes.subrange(<(A,)>::width() as int, <(A, B)>::width() as int)
            =~= self.1.encoding());
        assert(bytes.subrange(<(A, B)>::width() as int, <(A, B, C)>::width() as int)
            =~= self.2.encoding());
    }

    proof fn lemma_decoding_representable(bytes: Seq<u8>) {
        A::lemma_decoding_representable(bytes.subrange(0, <(A,)>::width() as int));
        B::lemma_decoding_representable(
            bytes.subrange(<(A,)>::width() as int, <(A, B)>::width() as int),
        );
        C::lemma_decoding_representable(
            bytes.subrange(<(A, B)>::width() as int, <(A, B, C)>::width() as int),
        );
    }

    fn pack(&self, buf: &mut [u8]) {
        proof {
            A::lemma_size();
            B::lemma_size();
            C::lemma_size();
            self.0.lemma_encoding_len();
            self.1.lemma_encoding_len();
            self.2.lemma_encoding_len();
            assert(Self::width() == A::width() + B::width() + C::width());
            assert(buf@.len() == buf.len());
            assert(buf@ =~= Seq::<u8>::empty() + buf@.skip(0));
        }
        let ghost mut done: Seq<u8> = Seq::empty();
        let mut i: usize = 0;
        let ghost before: Seq<u8> = buf@;
        {
            let (_, rest) = buf.split_at_mut(i);
            self.0.pack(rest);
        }
        proof {
            lemma_member_packed(old(buf)@, before, buf@, done, self.0.encoding());
            done = done + self.0.encoding();
        }
        i += A::SIZE;
        let ghost before: Seq<u8> = buf@;
        {
            let (_, rest) = buf.split_at_mut(i);
            self.1.pack(rest);
        }
        proof {
            lemma_member_packed(old(buf)@, before, buf@, done, self.1.encoding());
            done = done + self.1.encoding();
        }
        i += B::SIZE;
        let ghost before: Seq<u8> = buf@;
        {
            let (_, rest) = buf.split_at_mut(i);
            self.2.pack(rest);
        }
        proof {
            lemma_member_packed(old(buf)@, before, buf@, done, self.2.encoding());
            done = done + self.2.encoding();
        }
        assert(done =~= self.encoding());
    }

    fn unpack(buf: &[u8]) -> Self {
        proof {
            A::lemma_size();
            B::lemma_size();
            C::lemma_size();
            assert(Self::width() == A::width() + B::width() + C::width());
        }
        let ghost bytes: Seq<u8> = buf@.take(Self::width() as int);
        let mut rest = buf;
        let ghost before: Seq<u8> = rest@;
        let a = A::unpack_it_unchecked(&mut rest);
        assert(bytes.subrange(0, <(A,)>::width() as int) =~= before.take(A::width() as int));
        let ghost before: Seq<u8> = rest@;
        let b = B::unpack_it_unchecked(&mut rest);
        assert(bytes.subrange(<(A,)>::width() as int, <(A, B)>::width() as int)
            =~= before.take(B::width() as int));
        let ghost before: Seq<u8> = rest@;
        let c = C::unpack_it_unchecked(&mut rest);
        assert(bytes.subrange(<(A, B)>::width() as int, <(A, B, C)>::width() as int)
            =~= before.take(C::width() as int));
        (a, b, c)
    }
}

impl<A: Pack, B: Pack, C: Pack, D: Pack> Pack for (A, B, C, D) {
    const SIZE: usize = A::SIZE + B::SIZE + C::SIZE + D::SIZE;

    open spec fn width() -> nat {
        A::width() + B::width() + C::width() + D::width()
    }

    open spec fn encoding(&self) -> Seq<u8> {
        self.0.encoding() + self.1.encoding() + self.2.encoding() + self.3.encoding()
    }

    open spec fn decoding(bytes: Seq<u8>) -> Self {
        (
            A::decoding(bytes.subrange(0, <(A,)>::width() as int)),
            B::decoding(bytes.subrange(<(A,)>::width() as int, <(A, B)>::width() as int)),
            C::decoding(bytes.subrange(<(A, B)>::width() as int, <(A, B, C)>::width() as int)),
            D::decoding(
                bytes.subrange(<(A, B, C)>::width() as int, <(A, B, C, D)>::width() as int),
            ),
        )
    }

    open spec fn representable(&self) -> bool {
        self.0.representable() && self.1.representable() && self.2.representable()
            && self.3.representable()
    }

    proof fn lemma_size() {
        A::lemma_size();
        B::lemma_size();
        C::lemma_size();
        D::lemma_size();
        if Self::width() <= usize::MAX {
            assert(Self::SIZE == A::SIZE + B::SIZE + C::SIZE + D::SIZE);
        }
    }

    proof fn lemma_encoding_len(&self) {
        self.0.lemma_encoding_len();
        self.1.lemma_encoding_len();
        self.2.lemma_encoding_len();
        self.3.lemma_encoding_len();
    }

    proof fn lemma_round_trip(&self) {
        self.0.lemma_encoding_len();
        self.1.lemma_encoding_len();
        self.2.lemma_encoding_len();
        self.3.lemma_encoding_len();
        self.0.lemma_round_trip();
        self.1.lemma_round_trip();
        self.2.lemma_round_trip();
        self.3.lemma_round_trip();
        let bytes: Seq<u8> = self.encoding();
        assert(bytes.subrange(0, <(A,)>::width() as int) =~= self.0.encoding());
        assert(bytes.subrange(<(A,)>::width() as int, <(A, B)>::width() as int)
            =~= self.1.encoding());
        assert(bytes.subrange(<(A, B)>::width() as int, <(A, B, C)>::width() as int)
            =~= self.2.encoding());
        assert(bytes.subrange(<(A, B, C)>::width() as int, <(A, B, C, D)>::width() as int)
            =~= self.3.encoding());
    }

    proof fn lemma_decoding_representable(bytes: Seq<u8>) {
        A::lemma_decoding_representable(bytes.subrange(0, <(A,)>::width() as int));
        B::lemma_decoding_representable(
            bytes.subrange(<(A,)>::width() as int, <(A, B)>::width() as int),
        );
        C::lemma_decoding_representable(
            bytes.subrange(<(A, B)>::width() as int, <(A, B, C)>::width() as int),
        );
        D::lemma_decoding_representable(
            bytes.subrange(<(A, B, C)>::width() as int, <(A, B, C, D)>::width() as int),
        );
    }

    fn pack(&self, buf: &mut [u8]) {
        proof {
            A::lemma_size();
            B::lemma_size();
            C::lemma_size();
            D::lemma_size();
            self.0.lemma_encoding_len();
            self.1.lemma_encoding_len();
            self.2.lemma_encoding_len();
            self.3.lemma_encoding_len();
            assert(Self::width() == A::width() + B::width() + C::width() + D::width());
            assert(buf@.len() == buf.len());
            assert(buf@ =~= Seq::<u8>::empty() + buf@.skip(0));
        }
        let ghost mut done: Seq<u8> = Seq::empty();
        let mut i: usize = 0;
        let ghost before: Seq<u8> = buf@;
        {
            let (_, rest) = buf.split_at_mut(i);
            self.0.pack(rest);
        }
        proof {
            lemma_member_packed(old(buf)@, before, buf@, done, self.0.encoding());
            done = done + self.0.encoding();
        }
        i += A::SIZE;
        let ghost before: Seq<u8> = buf@;
        {
            let (_, rest) = buf.split_at_mut(i);
            self.1.pack(rest);
        }
        proof {
            lemma_member_packed(old(buf)@, before, buf@, done, self.1.encoding());
            done = done + self.1.encoding();
        }
        i += B::SIZE;
        let ghost before: Seq<u8> = buf@;
        {
            let (_, rest) = buf.split_at_mut(i);
            self.2.pack(rest);
        }
        proof {
            lemma_member_packed(old(buf)@, before, buf@, done, self.2.encoding());
            done = done + self.2.encoding();
        }
        i += C::SIZE;
        let ghost before: Seq<u8> = buf@;
        {
            let (_, rest) = buf.split_at_mut(i);
            self.3.pack(rest);
        }
        proof {
            lemma_member_packed(old(buf)@, before, buf@, done, self.3.encoding());
            done = done + self.3.encoding();
        }
        assert(done =~= self.encoding());
    }

    fn unpack(buf: &[u8]) -> Self {
        proof {
            A::lemma_size();
            B::lemma_size();
            C::lemma_size();
            D::lemma_size();
            assert(Self::width() == A::width() + B::width() + C::width() + D::width());
        }
        let ghost bytes: Seq<u8> = buf@.take(Self::width() as int);
        let mut rest = buf;
        let ghost before: Seq<u8> = rest@;
        let a = A::unpack_it_unchecked(&mut rest);
        assert(bytes.subrange(0, <(A,)>::width() as int) =~= before.take(A::width() as int));
        let ghost before: Seq<u8> = rest@;
        let b = B::unpack_it_unchecked(&mut rest);
        assert(bytes.subrange(<(A,)>::width() as int, <(A, B)>::width() as int)
            =~= before.take(B::width() as int));
        let ghost before: Seq<u8> = rest@;
        let c = C::unpack_it_unchecked(&mut rest);
        assert(bytes.subrange(<(A, B)>::width() as int, <(A, B, C)>::width() as int)
            =~= before.take(C::width() as int));
        let ghost before: Seq<u8> = rest@;
        let d = D::unpack_it_unchecked(&mut rest);
        assert(bytes.subrange(<(A, B, C)>::width() as int, <(A, B, C, D)>::width() as int)
            =~= before.take(D::width() as int));
        (a, b, c, d)
    }
}

impl<A: Pack, B: Pack, C: Pack, D: Pack, E: Pack> Pack for (A, B, C, D, E) {
    const SIZE: usize = A::SIZE + B::SIZE + C::SIZE + D::SIZE + E::SIZE;

    open spec fn width() -> nat {
        A::width() + B::width() + C::width() + D::width() + E::width()
    }

    open spec fn encoding(&self) -> Seq<u8> {
        self.0.encoding() + self.1.encoding() + self.2.encoding() + self.3.encoding()
            + self.4.encoding()
    }

    open spec fn decoding(bytes: Seq<u8>) -> Self {
        (
            A::decoding(bytes.subrange(0, <(A,)>::width() as int)),
            B::decoding(bytes.subrange(<(A,)>::width() as int, <(A, B)>::width() as int)),
            C::decoding(bytes.subrange(<(A, B)>::width() as int, <(A, B, C)>::width() as int)),
            D::decoding(
                bytes.subrange(<(A, B, C)>::width() as int, <(A, B, C, D)>::width() as int),
            ),
            E::decoding(
                bytes.subrange(<(A, B, C, D)>::width() as int, <(A, B, C, D, E)>::width() as int),
            ),
        )
    }

    open spec fn representable(&self) -> bool {
        self.0.representable() && self.1.representable() && self.2.representable()
            && self.3.representable() && self.4.representable()
    }

    proof fn lemma_size() {
        A::lemma_size();
        B::lemma_size();
        C::lemma_size();
        D::lemma_size();
        E::lemma_size();
        if Self::width() <= usize::MAX {
            assert(Self::SIZE == A::SIZE + B::SIZE + C::SIZE + D::SIZE + E::SIZE);
        }
    }

    proof fn lemma_encoding_len(&self) {
        self.0.lemma_encoding_len();
        self.1.lemma_encoding_len();
        self.2.lemma_encoding_len();
        self.3.lemma_encoding_len();
        self.4.lemma_encoding_len();
    }

    proof fn lemma_round_trip(&self) {
        self.0.lemma_encoding_len();
        self.1.lemma_encoding_len();
        self.2.lemma_encoding_len();
        self.3.lemma_encoding_len();
        self.4.lemma_encoding_len();
        self.0.lemma_round_trip();
        self.1.lemma_round_trip();
        self.2.lemma_round_trip();
        self.3.lemma_round_trip();
        self.4.lemma_round_trip();
        let bytes: Seq<u8> = self.encoding();
        assert(bytes.subrange(0, <(A,)>::width() as int) =~= self.0.encoding());
        assert(bytes.subrange(<(A,)>::width() as int, <(A, B)>::width() as int)
            =~= self.1.encoding());
        assert(bytes.subrange(<(A, B)>::width() as int, <(A, B, C)>::width() as int)
            =~= self.2.encoding());
        assert(bytes.subrange(<(A, B, C)>::width() as int, <(A, B, C, D)>::width() as int)
            =~= self.3.encoding());
        assert(bytes.subrange(<(A, B, C, D)>::width() as int, <(A, B, C, D, E)>::width() as int)
            =~= self.4.encoding());
    }

    proof fn lemma_decoding_representable(bytes: Seq<u8>) {
        A::lemma_decoding_representable(bytes.subrange(0, <(A,)>::width() as int));
        B::lemma_decoding_representable(
            bytes.subrange(<(A,)>::width() as int, <(A, B)>::width() as int),
        );
        C::lemma_decoding_representable(
            bytes.subrange(<(A, B)>::width() as int, <(A, B, C)>::width() as int),
        );
        D::lemma_decoding_representable(
            bytes.subrange(<(A, B, C)>::width() as int, <(A, B, C, D)>::width() as int),
        );
        E::lemma_decoding_representable(
            bytes.subrange(<(A, B, C, D)>::width() as int, <(A, B, C, D, E)>::width() as int),
        );
    }

    fn pack(&self, buf: &mut [u8]) {
        proof {
            A::lemma_size();
            B::lemma_size();
            C::lemma_size();
            D::lemma_size();
            E::lemma_size();
            self.0.lemma_encoding_len();
            self.1.lemma_encoding_len();
            self.2.lemma_encoding_len();
            self.3.lemma_encoding_len();
            self.4.lemma_encoding_len();
            assert(Self::width() == A::width() + B::width() + C::width() + D::width() + E::width());
            assert(buf@.len() == buf.len());
            assert(buf@ =~= Seq::<u8>::empty() + buf@.skip(0));
        }
        let ghost mut done: Seq<u8> = Seq::empty();
        let mut i: usize = 0;
        let ghost before: Seq<u8> = buf@;
        {
            let (_, rest) = buf.split_at_mut(i);
            self.0.pack(rest);
        }
        proof {
            lemma_member_packed(old(buf)@, before, buf@, done, self.0.encoding());
            done = done + self.0.encoding();
        }
        i += A::SIZE;
        let ghost before: Seq<u8> = buf@;
        {
            let (_, rest) = buf.split_at_mut(i);
            self.1.pack(rest);
        }
        proof {
            lemma_member_packed(old(buf)@, before, buf@, done, self.1.encoding());
            done = done + self.1.encoding();
        }
        i += B::SIZE;
        let ghost before: Seq<u8> = buf@;
        {
            let (_, rest) = buf.split_at_mut(i);
            self.2.pack(rest);
        }
        proof {
            lemma_member_packed(old(buf)@, before, buf@, done, self.2.encoding());
            done = done + self.2.encoding();
        }
        i += C::SIZE;
        let ghost before: Seq<u8> = buf@;
        {
            let (_, rest) = buf.split_at_mut(i);
            self.3.pack(rest);
        }
        proof {
            lemma_member_packed(old(buf)@, before, buf@, done, self.3.encoding());
            done = done + self.3.encoding();
        }
        i += D::SIZE;
        let ghost before: Seq<u8> = buf@;
        {
            let (_, rest) = buf.split_at_mut(i);
            self.4.pack(rest);
        }
        proof {
            lemma_member_packed(old(buf)@, before, buf@, done, self.4.encoding());
            done = done + self.4.encoding();
        }
        assert(done =~= self.encoding());
    }

    fn unpack(buf: &[u8]) -> Self {
        proof {
            A::lemma_size();
            B::lemma_size();
            C::lemma_size();
            D::lemma_size();
            E::lemma_size();
            assert(Self::width() == A::width() + B::width() + C::width() + D::width() + E::width());
        }
        let ghost bytes: Seq<u8> = buf@.take(Self::width() as int);
        let mut rest = buf;
        let ghost before: Seq<u8> = rest@;
        let a = A::unpack_it_unchecked(&mut rest);
        assert(bytes.subrange(0, <(A,)>::width() as int) =~= before.take(A::width() as int));
        let ghost before: Seq<u8> = rest@;
        let b = B::unpack_it_unchecked(&mut rest);
        assert(bytes.subrange(<(A,)>::width() as int, <(A, B)>::width() as int)
            =~= before.take(B::width() as int));
        let ghost before: Seq<u8> = rest@;
        let c = C::unpack_it_unchecked(&mut rest);
        assert(bytes.subrange(<(A, B)>::width() as int, <(A, B, C)>::width() as int)
            =~= before.take(C::width() as int));
        let ghost before: Seq<u8> = rest@;
        let d = D::unpack_it_unchecked(&mut rest);
        assert(bytes.subrange(<(A, B, C)>::width() as int, <(A, B, C, D)>::width() as int)
            =~= before.take(D::width() as int));
        let ghost before: Seq<u8> = rest@;
        let e = E::unpack_it_unchecked(&mut rest);
        assert(bytes.subrange(<(A, B, C, D)>::width() as int, <(A, B, C, D, E)>::width() as int)
            =~= before.take(E::width() as int));
        (a, b, c, d, e)
    }
}

impl<A: Pack, B: Pack, C: Pack, D: Pack, E: Pack, F: Pack> Pack for (A, B, C, D, E, F) {
    const SIZE: usize = A::SIZE + B::SIZE + C::SIZE + D::SIZE + E::SIZE + F::SIZE;

    open spec fn width() -> nat {
        A::width() + B::width() + C::width() + D::width() + E::width() + F::width()
    }

    open spec fn encoding(&self) -> Seq<u8> {
        self.0.encoding() + self.1.encoding() + self.2.encoding() + self.3.encoding()
            + self.4.encoding() + self.5.encoding()
    }

    open spec fn decoding(bytes: Seq<u8>) -> Self {
        (
            A::decoding(bytes.subrange(0, <(A,)>::width() as int)),
            B::decoding(bytes.subrange(<(A,)>::width() as int, <(A, B)>::width() as int)),
            C::decoding(bytes.subrange(<(A, B)>::width() as int, <(A, B, C)>::width() as int)),
            D::decoding(
                bytes.subrange(<(A, B, C)>::width() as int, <(A, B, C, D)>::width() as int),
            ),
            E::decoding(
                bytes.subrange(<(A, B, C, D)>::width() as int, <(A, B, C, D, E)>::width() as int),
            ),
            F::decoding(
                bytes.subrange(
                    <(A, B, C, D, E)>::width() as int,
                    <(A, B, C, D, E, F)>::width() as int,
                ),
            ),
        )
    }

    open spec fn representable(&self) -> bool {
        self.0.representable() && self.1.representable() && self.2.representable()
            && self.3.representable() && self.4.representable() && self.5.representable()
    }

    proof fn lemma_size() {
        A::lemma_size();
        B::lemma_size();
        C::lemma_size();
        D::lemma_size();
        E::lemma_size();
        F::lemma_size();
        if Self::width() <= usize::MAX {
            assert(Self::SIZE == A::SIZE + B::SIZE + C::SIZE + D::SIZE + E::SIZE + F::SIZE);
        }
    }

    proof fn lemma_encoding_len(&self) {
        self.0.lemma_encoding_len();
        self.1.lemma_encoding_len();
        self.2.lemma_encoding_len();
        self.3.lemma_encoding_len();
        self.4.lemma_encoding_len();
        self.5.lemma_encoding_len();
    }

    proof fn lemma_round_trip(&self) {
        self.0.lemma_encoding_len();
        self.1.lemma_encoding_len();
        self.2.lemma_encoding_len();
        self.3.lemma_encoding_len();
        self.4.lemma_encoding_len();
        self.5.lemma_encoding_len();
        self.0.lemma_round_trip();
        self.1.lemma_round_trip();
        self.2.lemma_round_trip();
        self.3.lemma_round_trip();
        self.4.lemma_round_trip();
        self.5.lemma_round_trip();
        let bytes: Seq<u8> = self.encoding();
        assert(bytes.subrange(0, <(A,)>::width() as int) =~= self.0.encoding());
        assert(bytes.subrange(<(A,)>::width() as int, <(A, B)>::width() as int)
            =~= self.1.encoding());
        assert(bytes.subrange(<(A, B)>::width() as int, <(A, B, C)>::width() as int)
            =~= self.2.encoding());
        assert(bytes.subrange(<(A, B, C)>::width() as int, <(A, B, C, D)>::width() as int)
            =~= self.3.encoding());
        assert(bytes.subrange(<(A, B, C, D)>::width() as int, <(A, B, C, D, E)>::width() as int)
            =~= self.4.encoding());
        assert(bytes.subrange(
            <(A, B, C, D, E)>::width() as int,
            <(A, B, C, D, E, F)>::width() as int,
        ) =~= self.5.encoding());
    }

    proof fn lemma_decoding_representable(bytes: Seq<u8>) {
        A::lemma_decoding_representable(bytes.subrange(0, <(A,)>::width() as int));
        B::lemma_decoding_representable(
            bytes.subrange(<(A,)>::width() as int, <(A, B)>::width() as int),
        );
        C::lemma_decoding_representable(
            bytes.subrange(<(A, B)>::width() as int, <(A, B, C)>::width() as int),
        );
        D::lemma_decoding_representable(
            bytes.subrange(<(A, B, C)>::width() as int, <(A, B, C, D)>::width() as int),
        );
        E::lemma_decoding_representable(
            bytes.subrange(<(A, B, C, D)>::width() as int, <(A, B, C, D, E)>::width() as int),
        );
        F::lemma_decoding_representable(
            bytes.subrange(<(A, B, C, D, E)>::width() as int, <(A, B, C, D, E, F)>::width() as int),
        );
    }

    fn pack(&self, buf: &mut [u8]) {
        proof {
            A::lemma_size();
            B::lemma_size();
            C::lemma_size();
            D::lemma_size();
            E::lemma_size();
            F::lemma_size();
            self.0.lemma_encoding_len();
            self.1.lemma_encoding_len();
            self.2.lemma_encoding_len();
            self.3.lemma_encoding_len();
            self.4.lemma_encoding_len();
            self.5.lemma_encoding_len();
            assert(Self::width() == A::width() + B::width() + C::width() + D::width() + E::width()
                + F::width());
            assert(buf@.len() == buf.len());
            assert(buf@ =~= Seq::<u8>::empty() + buf@.skip(0));
        }
        let ghost mut done: Seq<u8> = Seq::empty();
        let mut i: usize = 0;
        let ghost before: Seq<u8> = buf@;
        {
            let (_, rest) = buf.split_at_mut(i);
            self.0.pack(rest);
        }
        proof {
            lemma_member_packed(old(buf)@, before, buf@, done, self.0.encoding());
            done = done + self.0.encoding();
        }
        i += A::SIZE;
        let ghost before: Seq<u8> = buf@;
        {
            let (_, rest) = buf.split_at_mut(i);
            self.1.pack(rest);
        }
        proof {
            lemma_member_packed(old(buf)@, before, buf@, done, self.1.encoding());
            done = done + self.1.encoding();
        }
        i += B::SIZE;
        let ghost before: Seq<u8> = buf@;
        {
            let (_, rest) = buf.split_at_mut(i);
            self.2.pack(rest);
        }
        proof {
            lemma_member_packed(old(buf)@, before, buf@, done, self.2.encoding());
            done = done + self.2.encoding();
        }
        i += C::SIZE;
        let ghost before: Seq<u8> = buf@;
        {
            let (_, rest) = buf.split_at_mut(i);
            self.3.pack(rest);
        }
        proof {
            lemma_member_packed(old(buf)@, before, buf@, done, self.3.encoding());
            done = done + self.3.encoding();
        }
        i += D::SIZE;
        let ghost before: Seq<u8> = buf@;
        {
            let (_, rest) = buf.split_at_mut(i);
            self.4.pack(rest);
        }
        proof {
            lemma_member_packed(old(buf)@, before, buf@, done, self.4.encoding());
            done = done + self.4.encoding();
        }
        i += E::SIZE;
        let ghost before: Seq<u8> = buf@;
        {
            let (_, rest) = buf.split_at_mut(i);
            self.5.pack(rest);
        }
        proof {
            lemma_member_packed(old(buf)@, before, buf@, done, self.5.encoding());
            done = done + self.5.encoding();
        }
        assert(done =~= self.encoding());
    }

    fn unpack(buf: &[u8]) -> Self {
        proof {
            A::lemma_size();
            B::lemma_size();
            C::lemma_size();
            D::lemma_size();
            E::lemma_size();
            F::lemma_size();
            assert(Self::width() == A::width() + B::width() + C::width() + D::width() + E::width()
                + F::width());
        }
        let ghost bytes: Seq<u8> = buf@.take(Self::width() as int);
        let mut rest = buf;
        let ghost before: Seq<u8> = rest@;
        let a = A::unpack_it_unchecked(&mut rest);
        assert(bytes.subrange(0, <(A,)>::width() as int) =~= before.take(A::width() as int));
        let ghost before: Seq<u8> = rest@;
        let b = B::unpack_it_unchecked(&mut rest);
        assert(bytes.subrange(<(A,)>::width() as int, <(A, B)>::width() as int)
            =~= before.take(B::width() as int));
        let ghost before: Seq<u8> = rest@;
        let c = C::unpack_it_unchecked(&mut rest);
        assert(bytes.subrange(<(A, B)>::width() as int, <(A, B, C)>::width() as int)
            =~= before.take(C::width() as int));
        let ghost before: Seq<u8> = rest@;
        let d = D::unpack_it_unchecked(&mut rest);
        assert(bytes.subrange(<(A, B, C)>::width() as int, <(A, B, C, D)>::width() as int)
            =~= before.take(D::width() as int));
        let ghost before: Seq<u8> = rest@;
        let e = E::unpack_it_unchecked(&mut rest);
        assert(bytes.subrange(<(A, B, C, D)>::width() as int, <(A, B, C, D, E)>::width() as int)
            =~= before.take(E::width() as int));
        let ghost before: Seq<u8> = rest@;
        let f = F::unpack_it_unchecked(&mut rest);
        assert(bytes.subrange(
            <(A, B, C, D, E)>::width() as int,
            <(A, B, C, D, E, F)>::width() as int,
        ) =~= before.take(F::width() as int));
        (a, b, c, d, e, f)
    }
}

impl<A: Pack, B: Pack, C: Pack, D: Pack, E: Pack, F: Pack, G: Pack> Pack for (A, B, C, D, E, F, G) {
    const SIZE: usize = A::SIZE + B::SIZE + C::SIZE + D::SIZE + E::SIZE + F::SIZE + G::SIZE;

    open spec fn width() -> nat {
        A::width() + B::width() + C::width() + D::width() + E::width() + F::width() + G::width()
    }

    open spec fn encoding(&self) -> Seq<u8> {
        self.0.encoding() + self.1.encoding() + self.2.encoding() + self.3.encoding()
            + self.4.encoding() + self.5.encoding() + self.6.encoding()
    }

    open spec fn decoding(bytes: Seq<u8>) -> Self {
        (
            A::decoding(bytes.subrange(0, <(A,)>::width() as int)),
            B::decoding(bytes.subrange(<(A,)>::width() as int, <(A, B)>::width() as int)),
            C::decoding(bytes.subrange(<(A, B)>::width() as int, <(A, B, C)>::width() as int)),
            D::decoding(
                bytes.subrange(<(A, B, C)>::width() as int, <(A, B, C, D)>::width() as int),
            ),
            E::decoding(
                bytes.subrange(<(A, B, C, D)>::width() as int, <(A, B, C, D, E)>::width() as int),
            ),
            F::decoding(
                bytes.subrange(
                    <(A, B, C, D, E)>::width() as int,
                    <(A, B, C, D, E, F)>::width() as int,
                ),
            ),
            G::decoding(
                bytes.subrange(
                    <(A, B, C, D, E, F)>::width() as int,
                    <(A, B, C, D, E, F, G)>::width() as int,
                ),
            ),
        )
    }

    open spec fn representable(&self) -> bool {
        self.0.representable() && self.1.representable() && self.2.representable()
            && self.3.representable() && self.4.representable() && self.5.representable()
            && self.6.representable()
    }

    proof fn lemma_size() {
        A::lemma_size();
        B::lemma_size();
        C::lemma_size();
        D::lemma_size();
        E::lemma_size();
        F::lemma_size();
        G::lemma_size();
        if Self::width() <= usize::MAX {
            assert(Self::SIZE == A::SIZE + B::SIZE + C::SIZE + D::SIZE + E::SIZE + F::SIZE
                + G::SIZE);
        }
    }

    proof fn lemma_encoding_len(&self) {
        self.0.lemma_encoding_len();
        self.1.lemma_encoding_len();
        self.2.lemma_encoding_len();
        self.3.lemma_encoding_len();
        self.4.lemma_encoding_len();
        self.5.lemma_encoding_len();
        self.6.lemma_encoding_len();
    }

    proof fn lemma_round_trip(&self) {
        self.0.lemma_encoding_len();
        self.1.lemma_encoding_len();
        self.2.lemma_encoding_len();
        self.3.lemma_encoding_len();
        self.4.lemma_encoding_len();
        self.5.lemma_encoding_len();
        self.6.lemma_encoding_len();
        self.0.lemma_round_trip();
        self.1.lemma_round_trip();
        self.2.lemma_round_trip();
        self.3.lemma_round_trip();
        self.4.lemma_round_trip();
        self.5.lemma_round_trip();
        self.6.lemma_round_trip();
        let bytes: Seq<u8> = self.encoding();
        assert(bytes.subrange(0, <(A,)>::width() as int) =~= self.0.encoding());
        assert(bytes.subrange(<(A,)>::width() as int, <(A, B)>::width() as int)
            =~= self.1.encoding());
        assert(bytes.subrange(<(A, B)>::width() as int, <(A, B, C)>::width() as int)
            =~= self.2.encoding());
        assert(bytes.subrange(<(A, B, C)>::width() as int, <(A, B, C, D)>::width() as int)
            =~= self.3.encoding());
        assert(bytes.subrange(<(A, B, C, D)>::width() as int, <(A, B, C, D, E)>::width() as int)
            =~= self.4.encoding());
        assert(bytes.subrange(
            <(A, B, C, D, E)>::width() as int,
            <(A, B, C, D, E, F)>::width() as int,
        ) =~= self.5.encoding());
        assert(bytes.subrange(
            <(A, B, C, D, E, F)>::width() as int,
            <(A, B, C, D, E, F, G)>::width() as int,
        ) =~= self.6.encoding());
    }

    proof fn lemma_decoding_representable(bytes: Seq<u8>) {
        A::lemma_decoding_representable(bytes.subrange(0, <(A,)>::width() as int));
        B::lemma_decoding_representable(
            bytes.subrange(<(A,)>::width() as int, <(A, B)>::width() as int),
        );
        C::lemma_decoding_representable(
            bytes.subrange(<(A, B)>::width() as int, <(A, B, C)>::width() as int),
        );
        D::lemma_decoding_representable(
            bytes.subrange(<(A, B, C)>::width() as int, <(A, B, C, D)>::width() as int),
        );
        E::lemma_decoding_representable(
            bytes.subrange(<(A, B, C, D)>::width() as int, <(A, B, C, D, E)>::width() as int),
        );
        F::lemma_decoding_representable(
            bytes.subrange(<(A, B, C, D, E)>::width() as int, <(A, B, C, D, E, F)>::width() as int),
        );
        G::lemma_decoding_representable(
            bytes.subrange(
                <(A, B, C, D, E, F)>::width() as int,
                <(A, B, C, D, E, F, G)>::width() as int,
            ),
        );
    }

    fn pack(&self, buf: &mut [u8]) {
        proof {
            A::lemma_size();
            B::lemma_size();
            C::lemma_size();
            D::lemma_size();
            E::lemma_size();
            F::lemma_size();
            G::lemma_size();
            self.0.lemma_encoding_len();
            self.1.lemma_encoding_len();
            self.2.lemma_encoding_len();
            self.3.lemma_encoding_len();
            self.4.lemma_encoding_len();
            self.5.lemma_encoding_len();
            self.6.lemma_encoding_len();
            assert(Self::width() == A::width() + B::width() + C::width() + D::width() + E::width()
                + F::width() + G::width());
            assert(buf@.len() == buf.len());
            assert(buf@ =~= Seq::<u8>::empty() + buf@.skip(0));
        }
        let ghost mut done: Seq<u8> = Seq::empty();
        let mut i: usize = 0;
        let ghost before: Seq<u8> = buf@;
        {
            let (_, rest) = buf.split_at_mut(i);
            self.0.pack(rest);
        }
        proof {
            lemma_member_packed(old(buf)@, before, buf@, done, self.0.encoding());
            done = done + self.0.encoding();
        }
        i += A::SIZE;
        let ghost before: Seq<u8> = buf@;
        {
            let (_, rest) = buf.split_at_mut(i);
            self.1.pack(rest);
        }
        proof {
            lemma_member_packed(old(buf)@, before, buf@, done, self.1.encoding());
            done = done + self.1.encoding();
        }
        i += B::SIZE;
        let ghost before: Seq<u8> = buf@;
        {
            let (_, rest) = buf.split_at_mut(i);
            self.2.pack(rest);
        }
        proof {
            lemma_member_packed(old(buf)@, before, buf@, done, self.2.encoding());
            done = done + self.2.encoding();
        }
        i += C::SIZE;
        let ghost before: Seq<u8> = buf@;
        {
            let (_, rest) = buf.split_at_mut(i);
            self.3.pack(rest);
        }
        proof {
            lemma_member_packed(old(buf)@, before, buf@, done, self.3.encoding());
            done = done + self.3.encoding();
        }
        i += D::SIZE;
        let ghost before: Seq<u8> = buf@;
        {
            let (_, rest) = buf.split_at_mut(i);
            self.4.pack(rest);
        }
        proof {
            lemma_member_packed(old(buf)@, before, buf@, done, self.4.encoding());
            done = done + self.4.encoding();
        }
        i += E::SIZE;
        let ghost before: Seq<u8> = buf@;
        {
            let (_, rest) = buf.split_at_mut(i);
            self.5.pack(rest);
        }
        proof {
            lemma_member_packed(old(buf)@, before, buf@, done, self.5.encoding());
            done = done + self.5.encoding();
        }
        i += F::SIZE;
        let ghost before: Seq<u8> = buf@;
        {
            let (_, rest) = buf.split_at_mut(i);
            self.6.pack(rest);
        }
        proof {
            lemma_member_packed(old(buf)@, before, buf@, done, self.6.encoding());
            done = done + self.6.encoding();
        }
        assert(done =~= self.encoding());
    }

    fn unpack(buf: &[u8]) -> Self {
        proof {
            A::lemma_size();
            B::lemma_size();
            C::lemma_size();
            D::lemma_size();
            E::lemma_size();
            F::lemma_size();
            G::lemma_size();
            assert(Self::width() == A::width() + B::width() + C::width() + D::width() + E::width()
                + F::width() + G::width());
        }
        let ghost bytes: Seq<u8> = buf@.take(Self::width() as int);
        let mut rest = buf;
        let ghost before: Seq<u8> = rest@;
        let a = A::unpack_it_unchecked(&mut rest);
        assert(bytes.subrange(0, <(A,)>::width() as int) =~= before.take(A::width() as int));
        let ghost before: Seq<u8> = rest@;
        let b = B::unpack_it_unchecked(&mut rest);
        assert(bytes.subrange(<(A,)>::width() as int, <(A, B)>::width() as int)
            =~= before.take(B::width() as int));
        let ghost before: Seq<u8> = rest@;
        let c = C::unpack_it_unchecked(&mut rest);
        assert(bytes.subrange(<(A, B)>::width() as int, <(A, B, C)>::width() as int)
            =~= before.take(C::width() as int));
        let ghost before: Seq<u8> = rest@;
        let d = D::unpack_it_unchecked(&mut rest);
        assert(bytes.subrange(<(A, B, C)>::width() as int, <(A, B, C, D)>::width() as int)
            =~= before.take(D::width() as int));
        let ghost before: Seq<u8> = rest@;
        let e = E::unpack_it_unchecked(&mut rest);
        assert(bytes.subrange(<(A, B, C, D)>::width() as int, <(A, B, C, D, E)>::width() as int)
            =~= before.take(E::width() as int));
        let ghost before: Seq<u8> = rest@;
        let f = F::unpack_it_unchecked(&mut rest);
        assert(bytes.subrange(
            <(A, B, C, D, E)>::width() as int,
            <(A, B, C, D, E, F)>::width() as int,
        ) =~= before.take(F::width() as int));
        let ghost before: Seq<u8> = rest@;
        let g = G::unpack_it_unchecked(&mut rest);
        assert(bytes.subrange(
            <(A, B, C, D, E, F)>::width() as int,
            <(A, B, C, D, E, F, G)>::width() as int,
        ) =~= before.take(G::width() as int));
        (a, b, c, d, e, f, g)
    }
}

} // verus!
