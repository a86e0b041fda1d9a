//! Canonical bit encoding of plaintext values.
//!
//! The wire shape starts with a two-bit variant tag:
//! - literal: `00`, then the kind tag, a 16-bit length prefix, and the bits;
//! - struct: `01`, then a one-byte member count and, per member, a
//!   bit-length-prefixed identifier and a 16-bit-length-prefixed value;
//! - array: `10`, then a four-byte element count and, per element, a
//!   16-bit-length-prefixed value;
//! - future: `11`, then the prefixed program name, network and function
//!   name, a one-byte input count and, per input, a 16-bit-length-prefixed
//!   value.
//!
//! A struct with more than 255 members, an array with more than 2^32 - 1
//! elements, a future with more than 255 inputs, or any single nested value
//! whose encoding exceeds 65535 bits is malformed: encoding aborts with
//! `ProtocolLimitExceeded` rather than truncating or wrapping.

use vstd::prelude::*;

use crate::errors::StateError;
use crate::plaintext::{
    members_model, elements_model, lemma_members_model_index, lemma_elements_model_index,
    lemma_members_model_len, lemma_elements_model_len, Plaintext, PlaintextV,
    MAX_IDENTIFIER_BYTES,
};

verus! {

/// The largest encoded bit length a single nested value may have: its
/// length prefix is sixteen bits wide.
pub const MAX_NESTED_BITS: usize = 0xFFFF;

/// The low `w` bits of `n`, least-significant first.
pub open spec fn bits_of(n: nat, w: nat) -> Seq<bool>
    decreases w,
{
    if w == 0 {
        Seq::empty()
    } else {
        seq![n % 2 == 1] + bits_of(n / 2, (w - 1) as nat)
    }
}

/// An identifier's bits: each name byte in order, least-significant bit
/// first within the byte.
pub open spec fn ident_bits(name: Seq<u8>) -> Seq<bool>
    decreases name,
{
    if name.len() == 0 {
        Seq::empty()
    } else {
        bits_of(name[0] as nat, 8) + ident_bits(name.drop_first())
    }
}

/// One struct member on the wire, little-endian: the identifier behind its
/// bit-length prefix, then the value behind its 16-bit length prefix.
pub open spec fn member_bits_le(m: (Seq<u8>, PlaintextV)) -> Seq<bool>
    decreases m,
{
    bits_of(8 * m.0.len(), 8) + ident_bits(m.0) + bits_of(encode_le(m.1).len(), 16)
        + encode_le(m.1)
}

/// One array element or future input on the wire, little-endian.
pub open spec fn element_bits_le(e: PlaintextV) -> Seq<bool> {
    bits_of(encode_le(e).len(), 16) + encode_le(e)
}

/// The concatenated little-endian member encodings, in declaration order.
pub open spec fn encode_members_le(ms: Seq<(Seq<u8>, PlaintextV)>) -> Seq<bool>
    decreases ms,
{
    if ms.len() == 0 {
        Seq::empty()
    } else {
        member_bits_le(ms[0]) + encode_members_le(ms.drop_first())
    }
}

/// The concatenated little-endian element encodings, in order.
pub open spec fn encode_elements_le(es: Seq<PlaintextV>) -> Seq<bool>
    decreases es,
{
    if es.len() == 0 {
        Seq::empty()
    } else {
        bits_of(encode_le(es[0]).len(), 16) + encode_le(es[0]) + encode_elements_le(
            es.drop_first(),
        )
    }
}

/// The canonical little-endian encoding of a plaintext value. Member and
/// element order is declaration order; the encoding is a pure function of
/// the value's content.
pub open spec fn encode_le(p: PlaintextV) -> Seq<bool>
    decreases p,
{
    match p {
        PlaintextV::Literal { variant, bits } => seq![false, false] + bits_of(
            variant as nat,
            8,
        ) + bits_of(bits.len(), 16) + bits,
        PlaintextV::Struct { members } => seq![false, true] + bits_of(members.len(), 8)
            + encode_members_le(members),
        PlaintextV::Array { elements } => seq![true, false] + bits_of(elements.len(), 32)
            + encode_elements_le(elements),
        PlaintextV::Future { program_name, program_network, function_name, inputs } => seq![
            true,
            true,
        ] + bits_of(8 * program_name.len(), 8) + ident_bits(program_name) + bits_of(
            8 * program_network.len(),
            8,
        ) + ident_bits(program_network) + bits_of(8 * function_name.len(), 8) + ident_bits(
            function_name,
        ) + bits_of(inputs.len(), 8) + encode_elements_le(inputs),
    }
}

/// One struct member on the wire, big-endian: every primitive bit string
/// is reversed; the member order is unchanged.
pub open spec fn member_bits_be(m: (Seq<u8>, PlaintextV)) -> Seq<bool>
    decreases m,
{
    bits_of(8 * m.0.len(), 8).reverse() + ident_bits(m.0).reverse() + bits_of(
        encode_be(m.1).len(),
        16,
    ).reverse() + encode_be(m.1)
}

/// One array element or future input on the wire, big-endian.
pub open spec fn element_bits_be(e: PlaintextV) -> Seq<bool> {
    bits_of(encode_be(e).len(), 16).reverse() + encode_be(e)
}

/// The concatenated big-endian member encodings, in declaration order.
pub open spec fn encode_members_be(ms: Seq<(Seq<u8>, PlaintextV)>) -> Seq<bool>
    decreases ms,
{
    if ms.len() == 0 {
        Seq::empty()
    } else {
        member_bits_be(ms[0]) + encode_members_be(ms.drop_first())
    }
}

/// The concatenated big-endian element encodings, in order.
pub open spec fn encode_elements_be(es: Seq<PlaintextV>) -> Seq<bool>
    decreases es,
{
    if es.len() == 0 {
        Seq::empty()
    } else {
        bits_of(encode_be(es[0]).len(), 16).reverse() + encode_be(es[0]) + encode_elements_be(
            es.drop_first(),
        )
    }
}

/// The canonical big-endian encoding: the same shape as the little-endian
/// one with each primitive bit string reversed.
pub open spec fn encode_be(p: PlaintextV) -> Seq<bool>
    decreases p,
{
    match p {
        PlaintextV::Literal { variant, bits } => seq![false, false] + bits_of(
            variant as nat,
            8,
        ).reverse() + bits_of(bits.len(), 16).reverse() + bits.reverse(),
        PlaintextV::Struct { members } => seq![false, true] + bits_of(members.len(), 8).reverse()
            + encode_members_be(members),
        PlaintextV::Array { elements } => seq![true, false] + bits_of(
            elements.len(),
            32,
        ).reverse() + encode_elements_be(elements),
        PlaintextV::Future { program_name, program_network, function_name, inputs } => seq![
            true,
            true,
        ] + bits_of(8 * program_name.len(), 8).reverse() + ident_bits(program_name).reverse()
            + bits_of(8 * program_network.len(), 8).reverse() + ident_bits(
            program_network,
        ).reverse() + bits_of(8 * function_name.len(), 8).reverse() + ident_bits(
            function_name,
        ).reverse() + bits_of(inputs.len(), 8).reverse() + encode_elements_be(inputs),
    }
}

/// A member within the protocol's ceilings: identifier short enough for
/// its one-byte bit-length prefix, value encodable, value encoding within
/// the 16-bit length prefix.
pub open spec fn member_ok(m: (Seq<u8>, PlaintextV)) -> bool
    decreases m,
{
    &&& 8 * m.0.len() <= 255
    &&& encodable(m.1)
    &&& encode_le(m.1).len() <= MAX_NESTED_BITS
}

/// An element within the protocol's ceilings.
pub open spec fn element_ok(e: PlaintextV) -> bool {
    encodable(e) && encode_le(e).len() <= MAX_NESTED_BITS
}

/// Every member of the list is within the ceilings.
pub open spec fn members_ok(ms: Seq<(Seq<u8>, PlaintextV)>) -> bool
    decreases ms,
{
    if ms.len() == 0 {
        true
    } else {
        member_ok(ms[0]) && members_ok(ms.drop_first())
    }
}

/// Every element of the list is within the ceilings.
pub open spec fn elements_ok(es: Seq<PlaintextV>) -> bool
    decreases es,
{
    if es.len() == 0 {
        true
    } else {
        encodable(es[0]) && encode_le(es[0]).len() <= MAX_NESTED_BITS && elements_ok(
            es.drop_first(),
        )
    }
}

/// A value the protocol can carry: every count and every nested encoding
/// fits its wire prefix. Encoding succeeds exactly on these values.
pub open spec fn encodable(p: PlaintextV) -> bool
    decreases p,
{
    match p {
        PlaintextV::Literal { variant, bits } => bits.len() <= MAX_NESTED_BITS,
        PlaintextV::Struct { members } => members.len() <= 255 && members_ok(members),
        PlaintextV::Array { elements } => elements.len() <= 0xFFFF_FFFF && elements_ok(elements),
        PlaintextV::Future { program_name, program_network, function_name, inputs } => {
            &&& 8 * program_name.len() <= 255
            &&& 8 * program_network.len() <= 255
            &&& 8 * function_name.len() <= 255
            &&& inputs.len() <= 255
            &&& elements_ok(inputs)
        },
    }
}

/// Appends a copy of `src` to `out`.
fn extend_bits(out: &mut Vec<bool>, src: &Vec<bool>)
    ensures
        final(out)@ == old(out)@ + src@,
{
    let ghost out0 = old(out)@;
    let mut i: usize = 0;
    while i < src.len()
        invariant
            i <= src.len(),
            out@ == out0 + src@.subrange(0, i as int),
        decreases src.len() - i,
    {
        out.push(src[i]);
        proof {
            assert(out0 + src@.subrange(0, i + 1 as int) =~= (out0 + src@.subrange(
                0,
                i as int,
            )).push(src@[i as int]));
        }
        i = i + 1;
    }
    proof {
        assert(src@.subrange(0, src@.len() as int) =~= src@);
    }
}

/// Appends the bits of `src` in reverse order to `out`.
fn extend_reversed(out: &mut Vec<bool>, src: &Vec<bool>)
    ensures
        final(out)@ == old(out)@ + src@.reverse(),
{
    let ghost out0 = old(out)@;
    let mut i: usize = 0;
    while i < src.len()
        invariant
            i <= src.len(),
            out@ == out0 + src@.reverse().subrange(0, i as int),
        decreases src.len() - i,
    {
        out.push(src[src.len() - 1 - i]);
        proof {
            assert(src@.reverse()[i as int] == src@[src@.len() - 1 - i]);
            assert(out0 + src@.reverse().subrange(0, i + 1 as int) =~= (out0
                + src@.reverse().subrange(0, i as int)).push(src@.reverse()[i as int]));
        }
        i = i + 1;
    }
    proof {
        assert(src@.reverse().subrange(0, src@.reverse().len() as int) =~= src@.reverse());
        if src@.len() == 0 {
            assert(src@.reverse() =~= Seq::<bool>::empty());
        }
    }
}

/// Appends the low `w` bits of `n`, least-significant first.
fn push_bits_le(out: &mut Vec<bool>, n: u64, w: usize)
    ensures
        final(out)@ == old(out)@ + bits_of(n as nat, w as nat),
{
    let ghost out0 = old(out)@;
    let ghost mut acc: Seq<bool> = Seq::empty();
    let mut m: u64 = n;
    let mut i: usize = 0;
    proof {
        assert(Seq::empty() + bits_of(n as nat, w as nat) =~= bits_of(n as nat, w as nat));
        assert(out0 + Seq::<bool>::empty() =~= out0);
    }
    while i < w
        invariant
            i <= w,
            out@ == out0 + acc,
            acc + bits_of(m as nat, (w - i) as nat) == bits_of(n as nat, w as nat),
        decreases w - i,
    {
        let b: bool = m % 2 == 1;
        out.push(b);
        proof {
            assert(bits_of(m as nat, (w - i) as nat) == seq![b] + bits_of(
                m as nat / 2,
                (w - i - 1) as nat,
            ));
            assert((acc + seq![b]) + bits_of(m as nat / 2, (w - i - 1) as nat) =~= acc + (seq![b]
                + bits_of(m as nat / 2, (w - i - 1) as nat)));
            assert(out0 + (acc + seq![b]) =~= (out0 + acc).push(b));
            acc = acc + seq![b];
        }
        m = m / 2;
        i = i + 1;
    }
    proof {
        assert(acc + bits_of(m as nat, 0) =~= acc);
    }
}

/// Appends the low `w` bits of `n`, most-significant first.
fn push_bits_be(out: &mut Vec<bool>, n: u64, w: usize)
    ensures
        final(out)@ == old(out)@ + bits_of(n as nat, w as nat).reverse(),
{
    let mut tmp: Vec<bool> = Vec::new();
    push_bits_le(&mut tmp, n, w);
    proof {
        assert(Seq::<bool>::empty() + bits_of(n as nat, w as nat) =~= bits_of(
            n as nat,
            w as nat,
        ));
    }
    extend_reversed(out, &tmp);
}

/// Appends an identifier's bits, little-endian.
fn push_ident_le(out: &mut Vec<bool>, name: &Vec<u8>)
    ensures
        final(out)@ == old(out)@ + ident_bits(name@),
{
    let ghost out0 = old(out)@;
    let ghost mut acc: Seq<bool> = Seq::empty();
    let mut i: usize = 0;
    proof {
        assert(name@.subrange(0, name@.len() as int) =~= name@);
        assert(Seq::empty() + ident_bits(name@) =~= ident_bits(name@));
        assert(out0 + Seq::<bool>::empty() =~= out0);
    }
    while i < name.len()
        invariant
            i <= name.len(),
            out@ == out0 + acc,
            acc + ident_bits(name@.subrange(i as int, name@.len() as int)) == ident_bits(name@),
        decreases name.len() - i,
    {
        let ghost sub = name@.subrange(i as int, name@.len() as int);
        push_bits_le(out, name[i] as u64, 8);
        proof {
            assert(sub.drop_first() =~= name@.subrange(i + 1 as int, name@.len() as int));
            assert(ident_bits(sub) == bits_of(name@[i as int] as nat, 8) + ident_bits(
                sub.drop_first(),
            ));
            assert((acc + bits_of(name@[i as int] as nat, 8)) + ident_bits(sub.drop_first())
                =~= acc + (bits_of(name@[i as int] as nat, 8) + ident_bits(sub.drop_first())));
            assert(out0 + (acc + bits_of(name@[i as int] as nat, 8)) =~= (out0 + acc) + bits_of(
                name@[i as int] as nat,
                8,
            ));
            acc = acc + bits_of(name@[i as int] as nat, 8);
        }
        i = i + 1;
    }
    proof {
        assert(acc + ident_bits(name@.subrange(
            name@.len() as int,
            name@.len() as int,
        )) =~= acc);
    }
}

/// Appends an identifier's bits, big-endian.
fn push_ident_be(out: &mut Vec<bool>, name: &Vec<u8>)
    ensures
        final(out)@ == old(out)@ + ident_bits(name@).reverse(),
{
    let mut tmp: Vec<bool> = Vec::new();
    push_ident_le(&mut tmp, name);
    proof {
        assert(Seq::<bool>::empty() + ident_bits(name@) =~= ident_bits(name@));
    }
    extend_reversed(out, &tmp);
}

/// The bit string of `n` at width `w` has length `w`.
pub proof fn lemma_bits_of_len(n: nat, w: nat)
    ensures
        bits_of(n, w).len() == w,
    decreases w,
{
    if w > 0 {
        lemma_bits_of_len(n / 2, (w - 1) as nat);
    }
}

/// An identifier's bit string is eight bits per name byte.
pub proof fn lemma_ident_bits_len(name: Seq<u8>)
    ensures
        ident_bits(name).len() == 8 * name.len(),
    decreases name.len(),
{
    if name.len() > 0 {
        lemma_bits_of_len(name[0] as nat, 8);
        lemma_ident_bits_len(name.drop_first());
    }
}

/// Appending a member appends its wire bits.
pub proof fn lemma_members_le_snoc(ms: Seq<(Seq<u8>, PlaintextV)>, m: (Seq<u8>, PlaintextV))
    ensures
        encode_members_le(ms.push(m)) == encode_members_le(ms) + member_bits_le(m),
    decreases ms.len(),
{
    assert(ms.push(m).len() == ms.len() + 1);
    if ms.len() == 0 {
        assert(ms.push(m)[0] == m);
        assert(ms.push(m).drop_first() =~= Seq::<(Seq<u8>, PlaintextV)>::empty());
        assert(encode_members_le(ms.push(m)) == member_bits_le(ms.push(m)[0])
            + encode_members_le(ms.push(m).drop_first()));
        assert(encode_members_le(ms.push(m).drop_first()) == Seq::<bool>::empty());
        assert(encode_members_le(ms) == Seq::<bool>::empty());
        assert(member_bits_le(m) + Seq::<bool>::empty() =~= member_bits_le(m));
        assert(Seq::<bool>::empty() + member_bits_le(m) =~= member_bits_le(m));
    } else {
        lemma_members_le_snoc(ms.drop_first(), m);
        assert(ms.push(m)[0] == ms[0]);
        assert(ms.push(m).drop_first() =~= ms.drop_first().push(m));
        assert(member_bits_le(ms[0]) + (encode_members_le(ms.drop_first()) + member_bits_le(m))
            =~= (member_bits_le(ms[0]) + encode_members_le(ms.drop_first())) + member_bits_le(
            m,
        ));
    }
}

/// Appending an element appends its wire bits.
pub proof fn lemma_elements_le_snoc(es: Seq<PlaintextV>, e: PlaintextV)
    ensures
        encode_elements_le(es.push(e)) == encode_elements_le(es) + element_bits_le(e),
    decreases es.len(),
{
    assert(es.push(e).len() == es.len() + 1);
    if es.len() == 0 {
        assert(es.push(e)[0] == e);
        assert(es.push(e).drop_first() =~= Seq::<PlaintextV>::empty());
        assert(encode_elements_le(es.push(e)) == bits_of(encode_le(es.push(e)[0]).len(), 16)
            + encode_le(es.push(e)[0]) + encode_elements_le(es.push(e).drop_first()));
        assert(encode_elements_le(es.push(e).drop_first()) == Seq::<bool>::empty());
        assert(encode_elements_le(es) == Seq::<bool>::empty());
        assert(element_bits_le(e) + Seq::<bool>::empty() =~= element_bits_le(e));
        assert(Seq::<bool>::empty() + element_bits_le(e) =~= element_bits_le(e));
        assert(encode_elements_le(es.push(e)) =~= element_bits_le(e));
    } else {
        lemma_elements_le_snoc(es.drop_first(), e);
        assert(es.push(e)[0] == es[0]);
        assert(es.push(e).drop_first() =~= es.drop_first().push(e));
        assert(encode_elements_le(es.push(e)) == bits_of(encode_le(es.push(e)[0]).len(), 16)
            + encode_le(es.push(e)[0]) + encode_elements_le(es.push(e).drop_first()));
        assert(encode_elements_le(es) == bits_of(encode_le(es[0]).len(), 16) + encode_le(es[0])
            + encode_elements_le(es.drop_first()));
        assert(element_bits_le(es[0]) + (encode_elements_le(es.drop_first()) + element_bits_le(e))
            =~= (element_bits_le(es[0]) + encode_elements_le(es.drop_first()))
            + element_bits_le(e));
        assert(encode_elements_le(es.push(e)) =~= element_bits_le(es[0]) + (encode_elements_le(
            es.drop_first(),
        ) + element_bits_le(e)));
    }
}

/// A member list stays within the ceilings exactly when its front does and
/// the appended member does.
pub proof fn lemma_members_ok_snoc(ms: Seq<(Seq<u8>, PlaintextV)>, m: (Seq<u8>, PlaintextV))
    ensures
        members_ok(ms.push(m)) <==> members_ok(ms) && member_ok(m),
    decreases ms.len(),
{
    assert(ms.push(m).len() == ms.len() + 1);
    if ms.len() == 0 {
        assert(ms.push(m)[0] == m);
        assert(ms.push(m).drop_first() =~= Seq::<(Seq<u8>, PlaintextV)>::empty());
        assert(members_ok(ms.push(m)) == (member_ok(ms.push(m)[0]) && members_ok(
            ms.push(m).drop_first(),
        )));
    } else {
        lemma_members_ok_snoc(ms.drop_first(), m);
        assert(ms.push(m)[0] == ms[0]);
        assert(ms.push(m).drop_first() =~= ms.drop_first().push(m));
        assert(members_ok(ms.push(m)) == (member_ok(ms.push(m)[0]) && members_ok(
            ms.push(m).drop_first(),
        )));
        assert(members_ok(ms) == (member_ok(ms[0]) && members_ok(ms.drop_first())));
    }
}

/// An element list stays within the ceilings exactly when its front does
/// and the appended element does.
pub proof fn lemma_elements_ok_snoc(es: Seq<PlaintextV>, e: PlaintextV)
    ensures
        elements_ok(es.push(e)) <==> elements_ok(es) && element_ok(e),
    decreases es.len(),
{
    assert(es.push(e).len() == es.len() + 1);
    if es.len() == 0 {
        assert(es.push(e)[0] == e);
        assert(es.push(e).drop_first() =~= Seq::<PlaintextV>::empty());
        assert(elements_ok(es.push(e)) == (encodable(es.push(e)[0]) && encode_le(
            es.push(e)[0],
        ).len() <= MAX_NESTED_BITS && elements_ok(es.push(e).drop_first())));
    } else {
        lemma_elements_ok_snoc(es.drop_first(), e);
        assert(es.push(e)[0] == es[0]);
        assert(es.push(e).drop_first() =~= es.drop_first().push(e));
        assert(elements_ok(es.push(e)) == (encodable(es.push(e)[0]) && encode_le(
            es.push(e)[0],
        ).len() <= MAX_NESTED_BITS && elements_ok(es.push(e).drop_first())));
        assert(elements_ok(es) == (encodable(es[0]) && encode_le(es[0]).len() <= MAX_NESTED_BITS
            && elements_ok(es.drop_first())));
    }
}

/// Every member of a list within the ceilings is itself within them.
pub proof fn lemma_members_ok_index(ms: Seq<(Seq<u8>, PlaintextV)>, i: int)
    requires
        members_ok(ms),
        0 <= i < ms.len(),
    ensures
        member_ok(ms[i]),
    decreases ms.len(),
{
    if i > 0 {
        lemma_members_ok_index(ms.drop_first(), i - 1);
    }
}

/// Every element of a list within the ceilings is itself within them.
pub proof fn lemma_elements_ok_index(es: Seq<PlaintextV>, i: int)
    requires
        elements_ok(es),
        0 <= i < es.len(),
    ensures
        element_ok(es[i]),
    decreases es.len(),
{
    if i > 0 {
        lemma_elements_ok_index(es.drop_first(), i - 1);
    }
}

impl Plaintext {
    /// Encodes this value as its canonical little-endian bit sequence.
    ///
    /// Succeeds exactly on values within the protocol's ceilings; a struct
    /// with more than 255 members, an array with more than 2^32 - 1
    /// elements, a future with more than 255 inputs, or a nested value
    /// encoding to more than 65535 bits is rejected with
    /// `ProtocolLimitExceeded` and nothing is emitted.
    #[verifier::loop_isolation(false)]
    #[verifier::rlimit(60)]
    pub fn to_bits_le(&self) -> (r: Result<Vec<bool>, StateError>)
        ensures
            r is Ok <==> encodable(self@),
            r is Ok ==> r.unwrap()@ == encode_le(self@),
            r is Err ==> r.unwrap_err() == StateError::ProtocolLimitExceeded,
        decreases *self,
    {
        match self {
            Plaintext::Literal(lit) => {
                if lit.bits.len() > MAX_NESTED_BITS {
                    return Err(StateError::ProtocolLimitExceeded);
                }
                let mut out: Vec<bool> = Vec::new();
                out.push(false);
                out.push(false);
                push_bits_le(&mut out, lit.variant as u64, 8);
                push_bits_le(&mut out, lit.bits.len() as u64, 16);
                extend_bits(&mut out, &lit.bits);
                proof {
                    assert(out@ =~= encode_le(self@));
                }
                Ok(out)
            },
            Plaintext::Struct(members) => {
                if members.len() > 255 {
                    proof {
                        lemma_members_model_len(members@);
                    }
                    return Err(StateError::ProtocolLimitExceeded);
                }
                let ghost mm = members_model(members@);
                proof {
                    lemma_members_model_len(members@);
                }
                let mut out: Vec<bool> = Vec::new();
                out.push(false);
                out.push(true);
                push_bits_le(&mut out, members.len() as u64, 8);
                let ghost head = out@;
                let ghost mut acc: Seq<bool> = Seq::empty();
                proof {
                    assert(head + Seq::<bool>::empty() =~= head);
                    assert(mm.subrange(0, 0) =~= Seq::<(Seq<u8>, PlaintextV)>::empty());
                }
                let mut i: usize = 0;
                while i < members.len()
                    invariant
                        i <= members.len(),
                        members.len() <= 255,
                        mm == members_model(members@),
                        mm.len() == members@.len(),
                        out@ == head + acc,
                        acc == encode_members_le(mm.subrange(0, i as int)),
                        members_ok(mm.subrange(0, i as int)),
                        head == seq![false, true] + bits_of(members@.len(), 8),
                    decreases members@.len() - i,
                {
                    proof {
                        lemma_members_model_index(members@, i as int);
                    }
                    let pair = &members[i];
                    if pair.0.len() > MAX_IDENTIFIER_BYTES {
                        proof {
                            assert(!members_ok(mm)) by {
                                if members_ok(mm) {
                                    lemma_members_ok_index(mm, i as int);
                                }
                            }
                        }
                        return Err(StateError::ProtocolLimitExceeded);
                    }
                    proof {
                        assert(decreases_to!(*self => members@[i as int].1)) by {
                            assert(*self == Plaintext::Struct(*members));
                            assert(decreases_to!(*self => (*self)->Struct_0));
                            assert(decreases_to!(*members => members@));
                            assert(decreases_to!(members@ => members@[i as int]));
                            assert(decreases_to!(members@[i as int] => members@[i as int].1));
                        }
                    }
                    let vb = match pair.1.to_bits_le() {
                        Ok(b) => b,
                        Err(e) => {
                            proof {
                                assert(!members_ok(mm)) by {
                                    if members_ok(mm) {
                                        lemma_members_ok_index(mm, i as int);
                                    }
                                }
                            }
                            return Err(e);
                        },
                    };
                    if vb.len() > MAX_NESTED_BITS {
                        proof {
                            assert(!members_ok(mm)) by {
                                if members_ok(mm) {
                                    lemma_members_ok_index(mm, i as int);
                                }
                            }
                        }
                        return Err(StateError::ProtocolLimitExceeded);
                    }
                    push_bits_le(&mut out, (pair.0.len() * 8) as u64, 8);
                    push_ident_le(&mut out, pair.0.as_bytes());
                    push_bits_le(&mut out, vb.len() as u64, 16);
                    extend_bits(&mut out, &vb);
                    proof {
                        lemma_members_le_snoc(mm.subrange(0, i as int), mm[i as int]);
                        lemma_members_ok_snoc(mm.subrange(0, i as int), mm[i as int]);
                        assert(mm.subrange(0, i + 1 as int) =~= mm.subrange(0, i as int).push(
                            mm[i as int],
                        ));
                        assert(member_bits_le(mm[i as int]) =~= bits_of(
                            8 * pair.0@.len(),
                            8,
                        ) + ident_bits(pair.0@) + bits_of(vb@.len(), 16) + vb@);
                        acc = acc + member_bits_le(mm[i as int]);
                        assert(out@ =~= head + acc);
                    }
                    i = i + 1;
                }
                proof {
                    assert(mm.subrange(0, mm.len() as int) =~= mm);
                    assert(out@ =~= encode_le(self@));
                }
                Ok(out)
            },
            Plaintext::Array(elements) => {
                if elements.len() as u64 > 0xFFFF_FFFFu64 {
                    proof {
                        lemma_elements_model_len(elements@);
                    }
                    return Err(StateError::ProtocolLimitExceeded);
                }
                let ghost ee = elements_model(elements@);
                proof {
                    lemma_elements_model_len(elements@);
                }
                let mut out: Vec<bool> = Vec::new();
                out.push(true);
                out.push(false);
                push_bits_le(&mut out, elements.len() as u64, 32);
                let ghost head = out@;
                let ghost mut acc: Seq<bool> = Seq::empty();
                proof {
                    assert(head + Seq::<bool>::empty() =~= head);
                    assert(ee.subrange(0, 0) =~= Seq::<PlaintextV>::empty());
                }
                let mut i: usize = 0;
                while i < elements.len()
                    invariant
                        i <= elements.len(),
                        elements@.len() <= 0xFFFF_FFFF,
                        ee == elements_model(elements@),
                        ee.len() == elements@.len(),
                        out@ == head + acc,
                        acc == encode_elements_le(ee.subrange(0, i as int)),
                        elements_ok(ee.subrange(0, i as int)),
                        head == seq![true, false] + bits_of(elements@.len(), 32),
                    decreases elements@.len() - i,
                {
                    proof {
                        lemma_elements_model_index(elements@, i as int);
                        assert(decreases_to!(*self => elements@[i as int])) by {
                            assert(*self == Plaintext::Array(*elements));
                            assert(decreases_to!(*self => (*self)->Array_0));
                            assert(decreases_to!(*elements => elements@));
                            assert(decreases_to!(elements@ => elements@[i as int]));
                        }
                    }
                    let element = &elements[i];
                    let vb = match element.to_bits_le() {
                        Ok(b) => b,
                        Err(e) => {
                            proof {
                                assert(!elements_ok(ee)) by {
                                    if elements_ok(ee) {
                                        lemma_elements_ok_index(ee, i as int);
                                    }
                                }
                            }
                            return Err(e);
                        },
                    };
                    if vb.len() > MAX_NESTED_BITS {
                        proof {
                            assert(!elements_ok(ee)) by {
                                if elements_ok(ee) {
                                    lemma_elements_ok_index(ee, i as int);
                                }
                            }
                        }
                        return Err(StateError::ProtocolLimitExceeded);
                    }
                    push_bits_le(&mut out, vb.len() as u64, 16);
                    extend_bits(&mut out, &vb);
                    proof {
                        lemma_elements_le_snoc(ee.subrange(0, i as int), ee[i as int]);
                        lemma_elements_ok_snoc(ee.subrange(0, i as int), ee[i as int]);
                        assert(ee.subrange(0, i + 1 as int) =~= ee.subrange(0, i as int).push(
                            ee[i as int],
                        ));
                        assert(element_bits_le(ee[i as int]) =~= bits_of(vb@.len(), 16) + vb@);
                        acc = acc + element_bits_le(ee[i as int]);
                        assert(out@ =~= head + acc);
                    }
                    i = i + 1;
                }
                proof {
                    assert(ee.subrange(0, ee.len() as int) =~= ee);
                    assert(out@ =~= encode_le(self@));
                }
                Ok(out)
            },
            Plaintext::Future(f) => {
                if f.program_name.len() > MAX_IDENTIFIER_BYTES
                    || f.program_network.len() > MAX_IDENTIFIER_BYTES
                    || f.function_name.len() > MAX_IDENTIFIER_BYTES || f.inputs.len() > 255 {
                    proof {
                        lemma_elements_model_len(f.inputs@);
                    }
                    return Err(StateError::ProtocolLimitExceeded);
                }
                let ghost ee = elements_model(f.inputs@);
                proof {
                    lemma_elements_model_len(f.inputs@);
                }
                let mut out: Vec<bool> = Vec::new();
                out.push(true);
                out.push(true);
                push_bits_le(&mut out, (f.program_name.len() * 8) as u64, 8);
                push_ident_le(&mut out, f.program_name.as_bytes());
                push_bits_le(&mut out, (f.program_network.len() * 8) as u64, 8);
                push_ident_le(&mut out, f.program_network.as_bytes());
                push_bits_le(&mut out, (f.function_name.len() * 8) as u64, 8);
                push_ident_le(&mut out, f.function_name.as_bytes());
                push_bits_le(&mut out, f.inputs.len() as u64, 8);
                let ghost head = out@;
                let ghost mut acc: Seq<bool> = Seq::empty();
                proof {
                    assert(head + Seq::<bool>::empty() =~= head);
                    assert(ee.subrange(0, 0) =~= Seq::<PlaintextV>::empty());
                }
                let mut i: usize = 0;
                while i < f.inputs.len()
                    invariant
                        i <= f.inputs.len(),
                        f.inputs@.len() <= 255,
                        ee == elements_model(f.inputs@),
                        ee.len() == f.inputs@.len(),
                        out@ == head + acc,
                        acc == encode_elements_le(ee.subrange(0, i as int)),
                        elements_ok(ee.subrange(0, i as int)),
                        head == seq![true, true] + bits_of(8 * f.program_name@.len(), 8)
                            + ident_bits(f.program_name@) + bits_of(
                            8 * f.program_network@.len(),
                            8,
                        ) + ident_bits(f.program_network@) + bits_of(
                            8 * f.function_name@.len(),
                            8,
                        ) + ident_bits(f.function_name@) + bits_of(f.inputs@.len(), 8),
                    decreases f.inputs@.len() - i,
                {
                    proof {
                        lemma_elements_model_index(f.inputs@, i as int);
                        assert(decreases_to!(*self => f.inputs@[i as int])) by {
                            assert(*self == Plaintext::Future(*f));
                            assert(decreases_to!(*self => (*self)->Future_0));
                            assert(decreases_to!(*f => f.inputs));
                            assert(decreases_to!(f.inputs => f.inputs@));
                            assert(decreases_to!(f.inputs@ => f.inputs@[i as int]));
                        }
                    }
                    let element = &f.inputs[i];
                    let vb = match element.to_bits_le() {
                        Ok(b) => b,
                        Err(e) => {
                            proof {
                                assert(!elements_ok(ee)) by {
                                    if elements_ok(ee) {
                                        lemma_elements_ok_index(ee, i as int);
                                    }
                                }
                            }
                            return Err(e);
                        },
                    };
                    if vb.len() > MAX_NESTED_BITS {
                        proof {
                            assert(!elements_ok(ee)) by {
                                if elements_ok(ee) {
                                    lemma_elements_ok_index(ee, i as int);
                                }
                            }
                        }
                        return Err(StateError::ProtocolLimitExceeded);
                    }
                    push_bits_le(&mut out, vb.len() as u64, 16);
                    extend_bits(&mut out, &vb);
                    proof {
                        lemma_elements_le_snoc(ee.subrange(0, i as int), ee[i as int]);
                        lemma_elements_ok_snoc(ee.subrange(0, i as int), ee[i as int]);
                        assert(ee.subrange(0, i + 1 as int) =~= ee.subrange(0, i as int).push(
                            ee[i as int],
                        ));
                        assert(element_bits_le(ee[i as int]) =~= bits_of(vb@.len(), 16) + vb@);
                        acc = acc + element_bits_le(ee[i as int]);
                        assert(out@ =~= head + acc);
                    }
                    i = i + 1;
                }
                proof {
                    assert(ee.subrange(0, ee.len() as int) =~= ee);
                    assert(out@ =~= encode_le(self@));
                }
                Ok(out)
            },
        }
    }

    /// Appends this value's canonical little-endian bits to `vec`.
    ///
    /// On rejection `vec` is left untouched.
    pub fn write_bits_le(&self, vec: &mut Vec<bool>) -> (r: Result<(), StateError>)
        ensures
            r is Ok <==> encodable(self@),
            r is Ok ==> final(vec)@ == old(vec)@ + encode_le(self@),
            r is Err ==> final(vec)@ == old(vec)@ && r.unwrap_err()
                == StateError::ProtocolLimitExceeded,
    {
        match self.to_bits_le() {
            Ok(bits) => {
                extend_bits(vec, &bits);
                Ok(())
            },
            Err(e) => Err(e),
        }
    }
}

/// Appending a member appends its wire bits (big-endian).
pub proof fn lemma_members_be_snoc(ms: Seq<(Seq<u8>, PlaintextV)>, m: (Seq<u8>, PlaintextV))
    ensures
        encode_members_be(ms.push(m)) == encode_members_be(ms) + member_bits_be(m),
    decreases ms.len(),
{
    assert(ms.push(m).len() == ms.len() + 1);
    if ms.len() == 0 {
        assert(ms.push(m)[0] == m);
        assert(ms.push(m).drop_first() =~= Seq::<(Seq<u8>, PlaintextV)>::empty());
        assert(encode_members_be(ms.push(m)) == member_bits_be(ms.push(m)[0])
            + encode_members_be(ms.push(m).drop_first()));
        assert(encode_members_be(ms.push(m).drop_first()) == Seq::<bool>::empty());
        assert(encode_members_be(ms) == Seq::<bool>::empty());
        assert(member_bits_be(m) + Seq::<bool>::empty() =~= member_bits_be(m));
        assert(Seq::<bool>::empty() + member_bits_be(m) =~= member_bits_be(m));
    } else {
        lemma_members_be_snoc(ms.drop_first(), m);
        assert(ms.push(m)[0] == ms[0]);
        assert(ms.push(m).drop_first() =~= ms.drop_first().push(m));
        assert(encode_members_be(ms.push(m)) == member_bits_be(ms.push(m)[0])
            + encode_members_be(ms.push(m).drop_first()));
        assert(encode_members_be(ms) == member_bits_be(ms[0]) + encode_members_be(
            ms.drop_first(),
        ));
        assert(member_bits_be(ms[0]) + (encode_members_be(ms.drop_first()) + member_bits_be(m))
            =~= (member_bits_be(ms[0]) + encode_members_be(ms.drop_first())) + member_bits_be(
            m,
        ));
    }
}

/// Appending an element appends its wire bits (big-endian).
pub proof fn lemma_elements_be_snoc(es: Seq<PlaintextV>, e: PlaintextV)
    ensures
        encode_elements_be(es.push(e)) == encode_elements_be(es) + element_bits_be(e),
    decreases es.len(),
{
    assert(es.push(e).len() == es.len() + 1);
    if es.len() == 0 {
        assert(es.push(e)[0] == e);
        assert(es.push(e).drop_first() =~= Seq::<PlaintextV>::empty());
        assert(encode_elements_be(es.push(e)) == bits_of(encode_be(es.push(e)[0]).len(),
            16,
        ).reverse() + encode_be(es.push(e)[0]) + encode_elements_be(es.push(e).drop_first()));
        assert(encode_elements_be(es.push(e).drop_first()) == Seq::<bool>::empty());
        assert(encode_elements_be(es) == Seq::<bool>::empty());
        assert(element_bits_be(e) + Seq::<bool>::empty() =~= element_bits_be(e));
        assert(Seq::<bool>::empty() + element_bits_be(e) =~= element_bits_be(e));
        assert(encode_elements_be(es.push(e)) =~= element_bits_be(e));
    } else {
        lemma_elements_be_snoc(es.drop_first(), e);
        assert(es.push(e)[0] == es[0]);
        assert(es.push(e).drop_first() =~= es.drop_first().push(e));
        assert(encode_elements_be(es.push(e)) == bits_of(encode_be(es.push(e)[0]).len(),
            16,
        ).reverse() + encode_be(es.push(e)[0]) + encode_elements_be(es.push(e).drop_first()));
        assert(encode_elements_be(es) == bits_of(encode_be(es[0]).len(), 16).reverse()
            + encode_be(es[0]) + encode_elements_be(es.drop_first()));
        assert(element_bits_be(es[0]) + (encode_elements_be(es.drop_first()) + element_bits_be(e))
            =~= (element_bits_be(es[0]) + encode_elements_be(es.drop_first()))
            + element_bits_be(e));
    }
}

/// Length parity: the big-endian encoding of a value is exactly as long
/// as its little-endian encoding.
pub proof fn lemma_length_parity(p: PlaintextV)
    ensures
        encode_be(p).len() == encode_le(p).len(),
    decreases p,
{
    match p {
        PlaintextV::Literal { variant, bits } => {
            lemma_bits_of_len(variant as nat, 8);
            lemma_bits_of_len(bits.len(), 16);
            assert(bits_of(variant as nat, 8).reverse().len() == 8);
            assert(bits_of(bits.len(), 16).reverse().len() == 16);
            assert(bits.reverse().len() == bits.len());
        },
        PlaintextV::Struct { members } => {
            lemma_bits_of_len(members.len(), 8);
            assert(bits_of(members.len(), 8).reverse().len() == 8);
            lemma_length_parity_members(members);
        },
        PlaintextV::Array { elements } => {
            lemma_bits_of_len(elements.len(), 32);
            assert(bits_of(elements.len(), 32).reverse().len() == 32);
            lemma_length_parity_elements(elements);
        },
        PlaintextV::Future { program_name, program_network, function_name, inputs } => {
            lemma_bits_of_len(8 * program_name.len(), 8);
            lemma_bits_of_len(8 * program_network.len(), 8);
            lemma_bits_of_len(8 * function_name.len(), 8);
            lemma_bits_of_len(inputs.len(), 8);
            lemma_ident_bits_len(program_name);
            lemma_ident_bits_len(program_network);
            lemma_ident_bits_len(function_name);
            assert(bits_of(8 * program_name.len(), 8).reverse().len() == 8);
            assert(bits_of(8 * program_network.len(), 8).reverse().len() == 8);
            assert(bits_of(8 * function_name.len(), 8).reverse().len() == 8);
            assert(bits_of(inputs.len(), 8).reverse().len() == 8);
            assert(ident_bits(program_name).reverse().len() == ident_bits(program_name).len());
            assert(ident_bits(program_network).reverse().len() == ident_bits(
                program_network,
            ).len());
            assert(ident_bits(function_name).reverse().len() == ident_bits(function_name).len());
            lemma_length_parity_elements(inputs);
        },
    }
}

/// Length parity for a member list region.
pub proof fn lemma_length_parity_members(ms: Seq<(Seq<u8>, PlaintextV)>)
    ensures
        encode_members_be(ms).len() == encode_members_le(ms).len(),
    decreases ms,
{
    if ms.len() > 0 {
        lemma_length_parity(ms[0].1);
        lemma_length_parity_members(ms.drop_first());
        assert(encode_members_be(ms) == member_bits_be(ms[0]) + encode_members_be(
            ms.drop_first(),
        ));
        assert(encode_members_le(ms) == member_bits_le(ms[0]) + encode_members_le(
            ms.drop_first(),
        ));
        lemma_bits_of_len(8 * ms[0].0.len(), 8);
        lemma_bits_of_len(encode_be(ms[0].1).len(), 16);
        lemma_bits_of_len(encode_le(ms[0].1).len(), 16);
        lemma_ident_bits_len(ms[0].0);
        assert(bits_of(8 * ms[0].0.len(), 8).reverse().len() == 8);
        assert(bits_of(encode_be(ms[0].1).len(), 16).reverse().len() == 16);
        assert(ident_bits(ms[0].0).reverse().len() == ident_bits(ms[0].0).len());
    }
}

/// Length parity for an element list region.
pub proof fn lemma_length_parity_elements(es: Seq<PlaintextV>)
    ensures
        encode_elements_be(es).len() == encode_elements_le(es).len(),
    decreases es,
{
    if es.len() > 0 {
        lemma_length_parity(es[0]);
        lemma_length_parity_elements(es.drop_first());
        lemma_bits_of_len(encode_be(es[0]).len(), 16);
        lemma_bits_of_len(encode_le(es[0]).len(), 16);
        assert(bits_of(encode_be(es[0]).len(), 16).reverse().len() == 16);
    }
}

impl Plaintext {
    /// Encodes this value as its canonical big-endian bit sequence: the
    /// same wire shape as the little-endian form with every primitive bit
    /// string reversed. Succeeds on exactly the same values.
    #[verifier::loop_isolation(false)]
    #[verifier::rlimit(60)]
    pub fn to_bits_be(&self) -> (r: Result<Vec<bool>, StateError>)
        ensures
            r is Ok <==> encodable(self@),
            r is Ok ==> r.unwrap()@ == encode_be(self@),
            r is Err ==> r.unwrap_err() == StateError::ProtocolLimitExceeded,
        decreases *self,
    {
        match self {
            Plaintext::Literal(lit) => {
                if lit.bits.len() > MAX_NESTED_BITS {
                    return Err(StateError::ProtocolLimitExceeded);
                }
                let mut out: Vec<bool> = Vec::new();
                out.push(false);
                out.push(false);
                push_bits_be(&mut out, lit.variant as u64, 8);
                push_bits_be(&mut out, lit.bits.len() as u64, 16);
                extend_reversed(&mut out, &lit.bits);
                proof {
                    assert(out@ =~= encode_be(self@));
                }
                Ok(out)
            },
            Plaintext::Struct(members) => {
                if members.len() > 255 {
                    proof {
                        lemma_members_model_len(members@);
                    }
                    return Err(StateError::ProtocolLimitExceeded);
                }
                let ghost mm = members_model(members@);
                proof {
                    lemma_members_model_len(members@);
                }
                let mut out: Vec<bool> = Vec::new();
                out.push(false);
                out.push(true);
                push_bits_be(&mut out, members.len() as u64, 8);
                let ghost head = out@;
                let ghost mut acc: Seq<bool> = Seq::empty();
                proof {
                    assert(head + Seq::<bool>::empty() =~= head);
                    assert(mm.subrange(0, 0) =~= Seq::<(Seq<u8>, PlaintextV)>::empty());
                }
                let mut i: usize = 0;
                while i < members.len()
                    invariant
                        i <= members.len(),
                        out@ == head + acc,
                        acc == encode_members_be(mm.subrange(0, i as int)),
                        members_ok(mm.subrange(0, i as int)),
                    decreases members@.len() - i,
                {
                    proof {
                        lemma_members_model_index(members@, i as int);
                    }
                    let pair = &members[i];
                    if pair.0.len() > MAX_IDENTIFIER_BYTES {
                        proof {
                            assert(!members_ok(mm)) by {
                                if members_ok(mm) {
                                    lemma_members_ok_index(mm, i as int);
                                }
                            }
                        }
                        return Err(StateError::ProtocolLimitExceeded);
                    }
                    proof {
                        assert(decreases_to!(*self => members@[i as int].1)) by {
                            assert(*self == Plaintext::Struct(*members));
                            assert(decreases_to!(*self => (*self)->Struct_0));
                            assert(decreases_to!(*members => members@));
                            assert(decreases_to!(members@ => members@[i as int]));
                            assert(decreases_to!(members@[i as int] => members@[i as int].1));
                        }
                    }
                    let vb = match pair.1.to_bits_be() {
                        Ok(b) => b,
                        Err(e) => {
                            proof {
                                assert(!members_ok(mm)) by {
                                    if members_ok(mm) {
                                        lemma_members_ok_index(mm, i as int);
                                    }
                                }
                            }
                            return Err(e);
                        },
                    };
                    proof {
                        lemma_length_parity(mm[i as int].1);
                    }
                    if vb.len() > MAX_NESTED_BITS {
                        proof {
                            assert(!members_ok(mm)) by {
                                if members_ok(mm) {
                                    lemma_members_ok_index(mm, i as int);
                                }
                            }
                        }
                        return Err(StateError::ProtocolLimitExceeded);
                    }
                    push_bits_be(&mut out, (pair.0.len() * 8) as u64, 8);
                    push_ident_be(&mut out, pair.0.as_bytes());
                    push_bits_be(&mut out, vb.len() as u64, 16);
                    extend_bits(&mut out, &vb);
                    proof {
                        lemma_members_be_snoc(mm.subrange(0, i as int), mm[i as int]);
                        lemma_members_ok_snoc(mm.subrange(0, i as int), mm[i as int]);
                        assert(mm.subrange(0, i + 1 as int) =~= mm.subrange(0, i as int).push(
                            mm[i as int],
                        ));
                        assert(member_bits_be(mm[i as int]) =~= bits_of(
                            8 * pair.0@.len(),
                            8,
                        ).reverse() + ident_bits(pair.0@).reverse() + bits_of(
                            vb@.len(),
                            16,
                        ).reverse() + vb@);
                        acc = acc + member_bits_be(mm[i as int]);
                        assert(out@ =~= head + acc);
                    }
                    i = i + 1;
                }
                proof {
                    assert(mm.subrange(0, mm.len() as int) =~= mm);
                    assert(out@ =~= encode_be(self@));
                }
                Ok(out)
            },
            Plaintext::Array(elements) => {
                if elements.len() as u64 > 0xFFFF_FFFFu64 {
                    proof {
                        lemma_elements_model_len(elements@);
                    }
                    return Err(StateError::ProtocolLimitExceeded);
                }
                let ghost ee = elements_model(elements@);
                proof {
                    lemma_elements_model_len(elements@);
                }
                let mut out: Vec<bool> = Vec::new();
                out.push(true);
                out.push(false);
                push_bits_be(&mut out, elements.len() as u64, 32);
                let ghost head = out@;
                let ghost mut acc: Seq<bool> = Seq::empty();
                proof {
                    assert(head + Seq::<bool>::empty() =~= head);
                    assert(ee.subrange(0, 0) =~= Seq::<PlaintextV>::empty());
                }
                let mut i: usize = 0;
                while i < elements.len()
                    invariant
                        i <= elements.len(),
                        out@ == head + acc,
                        acc == encode_elements_be(ee.subrange(0, i as int)),
                        elements_ok(ee.subrange(0, i as int)),
                    decreases elements@.len() - i,
                {
                    proof {
                        lemma_elements_model_index(elements@, i as int);
                        assert(decreases_to!(*self => elements@[i as int])) by {
                            assert(*self == Plaintext::Array(*elements));
                            assert(decreases_to!(*self => (*self)->Array_0));
                            assert(decreases_to!(*elements => elements@));
                            assert(decreases_to!(elements@ => elements@[i as int]));
                        }
                    }
                    let element = &elements[i];
                    let vb = match element.to_bits_be() {
                        Ok(b) => b,
                        Err(e) => {
                            proof {
                                assert(!elements_ok(ee)) by {
                                    if elements_ok(ee) {
                                        lemma_elements_ok_index(ee, i as int);
                                    }
                                }
                            }
                            return Err(e);
                        },
                    };
                    proof {
                        lemma_length_parity(ee[i as int]);
                    }
                    if vb.len() > MAX_NESTED_BITS {
                        proof {
                            assert(!elements_ok(ee)) by {
                                if elements_ok(ee) {
                                    lemma_elements_ok_index(ee, i as int);
                                }
                            }
                        }
                        return Err(StateError::ProtocolLimitExceeded);
                    }
                    push_bits_be(&mut out, vb.len() as u64, 16);
                    extend_bits(&mut out, &vb);
                    proof {
                        lemma_elements_be_snoc(ee.subrange(0, i as int), ee[i as int]);
                        lemma_elements_ok_snoc(ee.subrange(0, i as int), ee[i as int]);
                        assert(ee.subrange(0, i + 1 as int) =~= ee.subrange(0, i as int).push(
                            ee[i as int],
                        ));
                        assert(element_bits_be(ee[i as int]) =~= bits_of(
                            vb@.len(),
                            16,
                        ).reverse() + vb@);
                        acc = acc + element_bits_be(ee[i as int]);
                        assert(out@ =~= head + acc);
                    }
                    i = i + 1;
                }
                proof {
                    assert(ee.subrange(0, ee.len() as int) =~= ee);
                    assert(out@ =~= encode_be(self@));
                }
                Ok(out)
            },
            Plaintext::Future(f) => {
                if f.program_name.len() > MAX_IDENTIFIER_BYTES
                    || f.program_network.len() > MAX_IDENTIFIER_BYTES
                    || f.function_name.len() > MAX_IDENTIFIER_BYTES || f.inputs.len() > 255 {
                    proof {
                        lemma_elements_model_len(f.inputs@);
                    }
                    return Err(StateError::ProtocolLimitExceeded);
                }
                let ghost ee = elements_model(f.inputs@);
                proof {
                    lemma_elements_model_len(f.inputs@);
                }
                let mut out: Vec<bool> = Vec::new();
                out.push(true);
                out.push(true);
                push_bits_be(&mut out, (f.program_name.len() * 8) as u64, 8);
                push_ident_be(&mut out, f.program_name.as_bytes());
                push_bits_be(&mut out, (f.program_network.len() * 8) as u64, 8);
                push_ident_be(&mut out, f.program_network.as_bytes());
                push_bits_be(&mut out, (f.function_name.len() * 8) as u64, 8);
                push_ident_be(&mut out, f.function_name.as_bytes());
                push_bits_be(&mut out, f.inputs.len() as u64, 8);
                let ghost head = out@;
                let ghost mut acc: Seq<bool> = Seq::empty();
                proof {
                    assert(head + Seq::<bool>::empty() =~= head);
                    assert(ee.subrange(0, 0) =~= Seq::<PlaintextV>::empty());
                }
                let mut i: usize = 0;
                while i < f.inputs.len()
                    invariant
                        i <= f.inputs.len(),
                        out@ == head + acc,
                        acc == encode_elements_be(ee.subrange(0, i as int)),
                        elements_ok(ee.subrange(0, i as int)),
                    decreases f.inputs@.len() - i,
                {
                    proof {
                        lemma_elements_model_index(f.inputs@, i as int);
                        assert(decreases_to!(*self => f.inputs@[i as int])) by {
                            assert(*self == Plaintext::Future(*f));
                            assert(decreases_to!(*self => (*self)->Future_0));
                            assert(decreases_to!(*f => f.inputs));
                            assert(decreases_to!(f.inputs => f.inputs@));
                            assert(decreases_to!(f.inputs@ => f.inputs@[i as int]));
                        }
                    }
                    let element = &f.inputs[i];
                    let vb = match element.to_bits_be() {
                        Ok(b) => b,
                        Err(e) => {
                            proof {
                                assert(!elements_ok(ee)) by {
                                    if elements_ok(ee) {
                                        lemma_elements_ok_index(ee, i as int);
                                    }
                                }
                            }
                            return Err(e);
                        },
                    };
                    proof {
                        lemma_length_parity(ee[i as int]);
                    }
                    if vb.len() > MAX_NESTED_BITS {
                        proof {
                            assert(!elements_ok(ee)) by {
                                if elements_ok(ee) {
                                    lemma_elements_ok_index(ee, i as int);
                                }
                            }
                        }
                        return Err(StateError::ProtocolLimitExceeded);
                    }
                    push_bits_be(&mut out, vb.len() as u64, 16);
                    extend_bits(&mut out, &vb);
                    proof {
                        lemma_elements_be_snoc(ee.subrange(0, i as int), ee[i as int]);
                        lemma_elements_ok_snoc(ee.subrange(0, i as int), ee[i as int]);
                        assert(ee.subrange(0, i + 1 as int) =~= ee.subrange(0, i as int).push(
                            ee[i as int],
                        ));
                        assert(element_bits_be(ee[i as int]) =~= bits_of(
                            vb@.len(),
                            16,
                        ).reverse() + vb@);
                        acc = acc + element_bits_be(ee[i as int]);
                        assert(out@ =~= head + acc);
                    }
                    i = i + 1;
                }
                proof {
                    assert(ee.subrange(0, ee.len() as int) =~= ee);
                    assert(out@ =~= encode_be(self@));
                }
                Ok(out)
            },
        }
    }

    /// Appends this value's canonical big-endian bits to `vec`.
    ///
    /// On rejection `vec` is left untouched.
    pub fn write_bits_be(&self, vec: &mut Vec<bool>) -> (r: Result<(), StateError>)
        ensures
            r is Ok <==> encodable(self@),
            r is Ok ==> final(vec)@ == old(vec)@ + encode_be(self@),
            r is Err ==> final(vec)@ == old(vec)@ && r.unwrap_err()
                == StateError::ProtocolLimitExceeded,
    {
        match self.to_bits_be() {
            Ok(bits) => {
                extend_bits(vec, &bits);
                Ok(())
            },
            Err(e) => Err(e),
        }
    }
}

/// Two raised to the `w`-th power.
pub open spec fn two_pow(w: nat) -> nat
    decreases w,
{
    if w == 0 {
        1
    } else {
        2 * two_pow((w - 1) as nat)
    }
}

/// The widths the wire format uses.
proof fn lemma_two_pow_widths()
    ensures
        two_pow(8) == 0x100,
        two_pow(16) == 0x10000,
        two_pow(32) == 0x1_0000_0000,
{
    reveal_with_fuel(two_pow, 33);
}

/// The number of tree nodes below a value, counting the value itself.
pub open spec fn size_of(p: PlaintextV) -> nat
    decreases p,
{
    match p {
        PlaintextV::Literal { .. } => 1,
        PlaintextV::Struct { members } => 1 + size_of_members(members),
        PlaintextV::Array { elements } => 1 + size_of_elements(elements),
        PlaintextV::Future { inputs, .. } => 1 + size_of_elements(inputs),
    }
}

/// The number of tree nodes below a member list.
pub open spec fn size_of_members(ms: Seq<(Seq<u8>, PlaintextV)>) -> nat
    decreases ms,
{
    if ms.len() == 0 {
        0
    } else {
        1 + size_of(ms[0].1) + size_of_members(ms.drop_first())
    }
}

/// The number of tree nodes below an element list.
pub open spec fn size_of_elements(es: Seq<PlaintextV>) -> nat
    decreases es,
{
    if es.len() == 0 {
        0
    } else {
        1 + size_of(es[0]) + size_of_elements(es.drop_first())
    }
}

/// Splitting equal concatenations at equal lengths gives equal parts.
pub proof fn lemma_concat_split<A>(x1: Seq<A>, y1: Seq<A>, x2: Seq<A>, y2: Seq<A>)
    requires
        x1 + y1 == x2 + y2,
        x1.len() == x2.len(),
    ensures
        x1 == x2,
        y1 == y2,
{
    assert((x1 + y1).len() == x1.len() + y1.len());
    assert((x2 + y2).len() == x2.len() + y2.len());
    assert(y1.len() == y2.len());
    assert forall|i: int| 0 <= i < x1.len() implies x1[i] == x2[i] by {
        assert((x1 + y1)[i] == x1[i]);
        assert((x2 + y2)[i] == x2[i]);
    }
    assert(x1 =~= x2);
    assert forall|i: int| 0 <= i < y1.len() implies y1[i] == y2[i] by {
        assert((x1 + y1)[x1.len() + i] == y1[i]);
        assert((x2 + y2)[x2.len() + i] == y2[i]);
    }
    assert(y1 =~= y2);
}

/// A bit string of width `w` determines its value below `2^w`.
pub proof fn lemma_bits_of_inj(m: nat, n: nat, w: nat)
    requires
        m < two_pow(w),
        n < two_pow(w),
        bits_of(m, w) == bits_of(n, w),
    ensures
        m == n,
    decreases w,
{
    lemma_bits_of_len(m, w);
    lemma_bits_of_len(n, w);
    if w == 0 {
    } else {
        assert(bits_of(m, w)[0] == (m % 2 == 1));
        assert(bits_of(n, w)[0] == (n % 2 == 1));
        assert(m % 2 == n % 2);
        assert(bits_of(m, w).drop_first() =~= bits_of(m / 2, (w - 1) as nat));
        assert(bits_of(n, w).drop_first() =~= bits_of(n / 2, (w - 1) as nat));
        assert(m / 2 < two_pow((w - 1) as nat));
        assert(n / 2 < two_pow((w - 1) as nat));
        lemma_bits_of_inj(m / 2, n / 2, (w - 1) as nat);
    }
}

/// An identifier's bit string determines its bytes, given equal lengths.
pub proof fn lemma_ident_bits_inj(a: Seq<u8>, b: Seq<u8>)
    requires
        a.len() == b.len(),
        ident_bits(a) == ident_bits(b),
    ensures
        a == b,
    decreases a.len(),
{
    if a.len() > 0 {
        lemma_bits_of_len(a[0] as nat, 8);
        lemma_bits_of_len(b[0] as nat, 8);
        lemma_concat_split(
            bits_of(a[0] as nat, 8),
            ident_bits(a.drop_first()),
            bits_of(b[0] as nat, 8),
            ident_bits(b.drop_first()),
        );
        lemma_two_pow_widths();
        lemma_bits_of_inj(a[0] as nat, b[0] as nat, 8);
        lemma_ident_bits_inj(a.drop_first(), b.drop_first());
        assert forall|i: int| 0 <= i < a.len() implies a[i] == b[i] by {
            if i > 0 {
                assert(a[i] == a.drop_first()[i - 1]);
                assert(b[i] == b.drop_first()[i - 1]);
            }
        }
        assert(a =~= b);
    } else {
        assert(a =~= b);
    }
}

/// Peeling a width-`w` length prefix off equal streams.
proof fn lemma_peel_number(ma: nat, mb: nat, w: nat, ta: Seq<bool>, tb: Seq<bool>)
    requires
        ma < two_pow(w),
        mb < two_pow(w),
        bits_of(ma, w) + ta == bits_of(mb, w) + tb,
    ensures
        ma == mb,
        ta == tb,
{
    lemma_bits_of_len(ma, w);
    lemma_bits_of_len(mb, w);
    lemma_concat_split(bits_of(ma, w), ta, bits_of(mb, w), tb);
    lemma_bits_of_inj(ma, mb, w);
}

/// Peeling a bit-length-prefixed identifier off equal streams.
proof fn lemma_peel_ident(xa: Seq<u8>, ta: Seq<bool>, xb: Seq<u8>, tb: Seq<bool>)
    requires
        8 * xa.len() <= 255,
        8 * xb.len() <= 255,
        bits_of(8 * xa.len(), 8) + ident_bits(xa) + ta == bits_of(8 * xb.len(), 8) + ident_bits(
            xb,
        ) + tb,
    ensures
        xa == xb,
        ta == tb,
{
    lemma_two_pow_widths();
    lemma_ident_bits_len(xa);
    lemma_ident_bits_len(xb);
    assert(bits_of(8 * xa.len(), 8) + ident_bits(xa) + ta == bits_of(8 * xa.len(), 8) + (
    ident_bits(xa) + ta)) by {
        assert(bits_of(8 * xa.len(), 8) + ident_bits(xa) + ta =~= bits_of(8 * xa.len(), 8) + (
        ident_bits(xa) + ta));
    }
    assert(bits_of(8 * xb.len(), 8) + ident_bits(xb) + tb == bits_of(8 * xb.len(), 8) + (
    ident_bits(xb) + tb)) by {
        assert(bits_of(8 * xb.len(), 8) + ident_bits(xb) + tb =~= bits_of(8 * xb.len(), 8) + (
        ident_bits(xb) + tb));
    }
    lemma_peel_number(8 * xa.len(), 8 * xb.len(), 8, ident_bits(xa) + ta, ident_bits(xb) + tb);
    lemma_concat_split(ident_bits(xa), ta, ident_bits(xb), tb);
    lemma_ident_bits_inj(xa, xb);
}

/// Equal literal encodings carry equal kind tags and equal bits.
proof fn lemma_literal_case(va: u8, ba: Seq<bool>, vb: u8, bb: Seq<bool>)
    requires
        ba.len() <= MAX_NESTED_BITS,
        bb.len() <= MAX_NESTED_BITS,
        encode_le(PlaintextV::Literal { variant: va, bits: ba }) == encode_le(
            PlaintextV::Literal { variant: vb, bits: bb },
        ),
    ensures
        va == vb,
        ba == bb,
{
    lemma_two_pow_widths();
    let tag = seq![false, false];
    let ra = bits_of(va as nat, 8) + (bits_of(ba.len(), 16) + ba);
    let rb = bits_of(vb as nat, 8) + (bits_of(bb.len(), 16) + bb);
    assert(encode_le(PlaintextV::Literal { variant: va, bits: ba }) == tag + ra) by {
        assert(encode_le(PlaintextV::Literal { variant: va, bits: ba }) =~= tag + ra);
    }
    assert(encode_le(PlaintextV::Literal { variant: vb, bits: bb }) == tag + rb) by {
        assert(encode_le(PlaintextV::Literal { variant: vb, bits: bb }) =~= tag + rb);
    }
    lemma_concat_split(tag, ra, tag, rb);
    lemma_peel_number(va as nat, vb as nat, 8, bits_of(ba.len(), 16) + ba, bits_of(
        bb.len(),
        16,
    ) + bb);
    lemma_peel_number(ba.len(), bb.len(), 16, ba, bb);
}

/// The wire stream of a future, right-nested for peeling.
proof fn lemma_future_stream(p: Seq<u8>, n: Seq<u8>, f: Seq<u8>, ins: Seq<PlaintextV>)
    ensures
        encode_le(
            PlaintextV::Future {
                program_name: p,
                program_network: n,
                function_name: f,
                inputs: ins,
            },
        ) == seq![true, true] + (bits_of(8 * p.len(), 8) + ident_bits(p) + (bits_of(
            8 * n.len(),
            8,
        ) + ident_bits(n) + (bits_of(8 * f.len(), 8) + ident_bits(f) + (bits_of(ins.len(), 8)
            + encode_elements_le(ins))))),
{
    let v = PlaintextV::Future {
        program_name: p,
        program_network: n,
        function_name: f,
        inputs: ins,
    };
    assert(encode_le(v) =~= seq![true, true] + (bits_of(8 * p.len(), 8) + ident_bits(p) + (
    bits_of(8 * n.len(), 8) + ident_bits(n) + (bits_of(8 * f.len(), 8) + ident_bits(f) + (
    bits_of(ins.len(), 8) + encode_elements_le(ins))))));
}

/// Equal future encodings carry equal names and equal input regions.
proof fn lemma_future_case(
    pa: Seq<u8>,
    na: Seq<u8>,
    fa: Seq<u8>,
    ia: Seq<PlaintextV>,
    pb: Seq<u8>,
    nb: Seq<u8>,
    fb: Seq<u8>,
    ib: Seq<PlaintextV>,
)
    requires
        8 * pa.len() <= 255,
        8 * na.len() <= 255,
        8 * fa.len() <= 255,
        ia.len() <= 255,
        8 * pb.len() <= 255,
        8 * nb.len() <= 255,
        8 * fb.len() <= 255,
        ib.len() <= 255,
        encode_le(
            PlaintextV::Future {
                program_name: pa,
                program_network: na,
                function_name: fa,
                inputs: ia,
            },
        ) == encode_le(
            PlaintextV::Future {
                program_name: pb,
                program_network: nb,
                function_name: fb,
                inputs: ib,
            },
        ),
    ensures
        pa == pb,
        na == nb,
        fa == fb,
        ia.len() == ib.len(),
        encode_elements_le(ia) == encode_elements_le(ib),
{
    lemma_two_pow_widths();
    lemma_future_stream(pa, na, fa, ia);
    lemma_future_stream(pb, nb, fb, ib);
    let tag = seq![true, true];
    lemma_concat_split(
        tag,
        bits_of(8 * pa.len(), 8) + ident_bits(pa) + (bits_of(8 * na.len(), 8) + ident_bits(na) + (
        bits_of(8 * fa.len(), 8) + ident_bits(fa) + (bits_of(ia.len(), 8) + encode_elements_le(
            ia,
        )))),
        tag,
        bits_of(8 * pb.len(), 8) + ident_bits(pb) + (bits_of(8 * nb.len(), 8) + ident_bits(nb) + (
        bits_of(8 * fb.len(), 8) + ident_bits(fb) + (bits_of(ib.len(), 8) + encode_elements_le(
            ib,
        )))),
    );
    lemma_peel_ident(
        pa,
        bits_of(8 * na.len(), 8) + ident_bits(na) + (bits_of(8 * fa.len(), 8) + ident_bits(fa) + (
        bits_of(ia.len(), 8) + encode_elements_le(ia))),
        pb,
        bits_of(8 * nb.len(), 8) + ident_bits(nb) + (bits_of(8 * fb.len(), 8) + ident_bits(fb) + (
        bits_of(ib.len(), 8) + encode_elements_le(ib))),
    );
    lemma_peel_ident(
        na,
        bits_of(8 * fa.len(), 8) + ident_bits(fa) + (bits_of(ia.len(), 8) + encode_elements_le(
            ia,
        )),
        nb,
        bits_of(8 * fb.len(), 8) + ident_bits(fb) + (bits_of(ib.len(), 8) + encode_elements_le(
            ib,
        )),
    );
    lemma_peel_ident(
        fa,
        bits_of(ia.len(), 8) + encode_elements_le(ia),
        fb,
        bits_of(ib.len(), 8) + encode_elements_le(ib),
    );
    lemma_peel_number(ia.len(), ib.len(), 8, encode_elements_le(ia), encode_elements_le(ib));
}

/// The first two bits of an encoding name the variant.
proof fn lemma_tag_bits(p: PlaintextV)
    ensures
        p is Literal ==> encode_le(p)[0] == false && encode_le(p)[1] == false,
        p is Struct ==> encode_le(p)[0] == false && encode_le(p)[1] == true,
        p is Array ==> encode_le(p)[0] == true && encode_le(p)[1] == false,
        p is Future ==> encode_le(p)[0] == true && encode_le(p)[1] == true,
{
    assert(seq![false, false][0] == false && seq![false, false][1] == false);
    assert(seq![false, true][0] == false && seq![false, true][1] == true);
    assert(seq![true, false][0] == true && seq![true, false][1] == false);
    assert(seq![true, true][0] == true && seq![true, true][1] == true);
    match p {
        PlaintextV::Literal { variant, bits } => {
            assert(encode_le(p)[0] == seq![false, false][0]);
            assert(encode_le(p)[1] == seq![false, false][1]);
        },
        PlaintextV::Struct { members } => {
            assert(encode_le(p)[0] == seq![false, true][0]);
            assert(encode_le(p)[1] == seq![false, true][1]);
        },
        PlaintextV::Array { elements } => {
            assert(encode_le(p)[0] == seq![true, false][0]);
            assert(encode_le(p)[1] == seq![true, false][1]);
        },
        PlaintextV::Future { program_name, program_network, function_name, inputs } => {
            assert(encode_le(p)[0] == seq![true, true][0]);
            assert(encode_le(p)[1] == seq![true, true][1]);
        },
    }
}

/// The canonical encoding is injective on encodable values: structurally
/// distinct values never share an encoding.
#[verifier::rlimit(100)]
pub proof fn lemma_encode_le_injective(a: PlaintextV, b: PlaintextV)
    requires
        encodable(a),
        encodable(b),
        encode_le(a) == encode_le(b),
    ensures
        a == b,
    decreases size_of(a),
{
    lemma_two_pow_widths();
    lemma_tag_bits(a);
    lemma_tag_bits(b);
    assert(encode_le(a)[0] == encode_le(b)[0]);
    assert(encode_le(a)[1] == encode_le(b)[1]);
    match (a, b) {
        (
            PlaintextV::Literal { variant: va, bits: ba },
            PlaintextV::Literal { variant: vb, bits: bb },
        ) => {
            lemma_literal_case(va, ba, vb, bb);
        },
        (PlaintextV::Struct { members: ma }, PlaintextV::Struct { members: mb }) => {
            let tag = seq![false, true];
            let ra = bits_of(ma.len(), 8) + encode_members_le(ma);
            let rb = bits_of(mb.len(), 8) + encode_members_le(mb);
            assert(encode_le(a) == tag + ra) by {
                assert(encode_le(a) =~= tag + ra);
            }
            assert(encode_le(b) == tag + rb) by {
                assert(encode_le(b) =~= tag + rb);
            }
            lemma_concat_split(tag, ra, tag, rb);
            lemma_peel_number(ma.len(), mb.len(), 8, encode_members_le(ma), encode_members_le(mb));
            lemma_members_region_inj(ma, mb);
        },
        (PlaintextV::Array { elements: ea }, PlaintextV::Array { elements: eb }) => {
            let tag = seq![true, false];
            let ra = bits_of(ea.len(), 32) + encode_elements_le(ea);
            let rb = bits_of(eb.len(), 32) + encode_elements_le(eb);
            assert(encode_le(a) == tag + ra) by {
                assert(encode_le(a) =~= tag + ra);
            }
            assert(encode_le(b) == tag + rb) by {
                assert(encode_le(b) =~= tag + rb);
            }
            lemma_concat_split(tag, ra, tag, rb);
            lemma_peel_number(ea.len(), eb.len(), 32, encode_elements_le(ea), encode_elements_le(
                eb,
            ));
            lemma_elements_region_inj(ea, eb);
        },
        (
            PlaintextV::Future {
                program_name: pa,
                program_network: na,
                function_name: fa,
                inputs: ia,
            },
            PlaintextV::Future {
                program_name: pb,
                program_network: nb,
                function_name: fb,
                inputs: ib,
            },
        ) => {
            lemma_future_case(pa, na, fa, ia, pb, nb, fb, ib);
            lemma_elements_region_inj(ia, ib);
        },
        _ => {
            assert(false);
        },
    }
}

/// The wire stream of a nonempty member list, right-nested for peeling.
proof fn lemma_member_stream(ms: Seq<(Seq<u8>, PlaintextV)>)
    requires
        ms.len() > 0,
    ensures
        encode_members_le(ms) == bits_of(8 * ms[0].0.len(), 8) + ident_bits(ms[0].0) + (bits_of(
            encode_le(ms[0].1).len(),
            16,
        ) + (encode_le(ms[0].1) + encode_members_le(ms.drop_first()))),
{
    assert(encode_members_le(ms) == member_bits_le(ms[0]) + encode_members_le(ms.drop_first()));
    assert(encode_members_le(ms) =~= bits_of(8 * ms[0].0.len(), 8) + ident_bits(ms[0].0) + (
    bits_of(encode_le(ms[0].1).len(), 16) + (encode_le(ms[0].1) + encode_members_le(
        ms.drop_first(),
    ))));
}

/// The wire stream of a nonempty element list, right-nested for peeling.
proof fn lemma_element_stream(es: Seq<PlaintextV>)
    requires
        es.len() > 0,
    ensures
        encode_elements_le(es) == bits_of(encode_le(es[0]).len(), 16) + (encode_le(es[0])
            + encode_elements_le(es.drop_first())),
{
    assert(encode_elements_le(es) =~= bits_of(encode_le(es[0]).len(), 16) + (encode_le(es[0])
        + encode_elements_le(es.drop_first())));
}

/// Equal member regions of equally long lists within the ceilings carry
/// equal members.
proof fn lemma_members_region_inj(ma: Seq<(Seq<u8>, PlaintextV)>, mb: Seq<(Seq<u8>, PlaintextV)>)
    requires
        members_ok(ma),
        members_ok(mb),
        ma.len() == mb.len(),
        encode_members_le(ma) == encode_members_le(mb),
    ensures
        ma == mb,
    decreases size_of_members(ma),
{
    lemma_two_pow_widths();
    if ma.len() == 0 {
        assert(ma =~= mb);
    } else {
        let na0 = ma[0].0;
        let va0 = ma[0].1;
        let nb0 = mb[0].0;
        let vb0 = mb[0].1;
        assert(member_ok(ma[0]) && members_ok(ma.drop_first()));
        assert(member_ok(mb[0]) && members_ok(mb.drop_first()));
        lemma_member_stream(ma);
        lemma_member_stream(mb);
        lemma_peel_ident(
            na0,
            bits_of(encode_le(va0).len(), 16) + (encode_le(va0) + encode_members_le(
                ma.drop_first(),
            )),
            nb0,
            bits_of(encode_le(vb0).len(), 16) + (encode_le(vb0) + encode_members_le(
                mb.drop_first(),
            )),
        );
        lemma_peel_number(
            encode_le(va0).len(),
            encode_le(vb0).len(),
            16,
            encode_le(va0) + encode_members_le(ma.drop_first()),
            encode_le(vb0) + encode_members_le(mb.drop_first()),
        );
        lemma_concat_split(
            encode_le(va0),
            encode_members_le(ma.drop_first()),
            encode_le(vb0),
            encode_members_le(mb.drop_first()),
        );
        lemma_encode_le_injective(va0, vb0);
        lemma_members_region_inj(ma.drop_first(), mb.drop_first());
        assert(ma[0] == mb[0]);
        assert forall|i: int| 0 <= i < ma.len() implies ma[i] == mb[i] by {
            if i > 0 {
                assert(ma[i] == ma.drop_first()[i - 1]);
                assert(mb[i] == mb.drop_first()[i - 1]);
            }
        }
        assert(ma =~= mb);
    }
}

/// Equal element regions of equally long lists within the ceilings carry
/// equal elements.
proof fn lemma_elements_region_inj(ea: Seq<PlaintextV>, eb: Seq<PlaintextV>)
    requires
        elements_ok(ea),
        elements_ok(eb),
        ea.len() == eb.len(),
        encode_elements_le(ea) == encode_elements_le(eb),
    ensures
        ea == eb,
    decreases size_of_elements(ea),
{
    lemma_two_pow_widths();
    if ea.len() == 0 {
        assert(ea =~= eb);
    } else {
        lemma_element_stream(ea);
        lemma_element_stream(eb);
        lemma_peel_number(
            encode_le(ea[0]).len(),
            encode_le(eb[0]).len(),
            16,
            encode_le(ea[0]) + encode_elements_le(ea.drop_first()),
            encode_le(eb[0]) + encode_elements_le(eb.drop_first()),
        );
        lemma_concat_split(
            encode_le(ea[0]),
            encode_elements_le(ea.drop_first()),
            encode_le(eb[0]),
            encode_elements_le(eb.drop_first()),
        );
        lemma_encode_le_injective(ea[0], eb[0]);
        lemma_elements_region_inj(ea.drop_first(), eb.drop_first());
        assert forall|i: int| 0 <= i < ea.len() implies ea[i] == eb[i] by {
            if i > 0 {
                assert(ea[i] == ea.drop_first()[i - 1]);
                assert(eb[i] == eb.drop_first()[i - 1]);
            }
        }
        assert(ea =~= eb);
    }
}

/// Distinctness: structurally distinct values within the protocol's
/// ceilings never share a little-endian encoding.
pub proof fn lemma_encode_le_distinct(a: PlaintextV, b: PlaintextV)
    requires
        encodable(a),
        encodable(b),
        a != b,
    ensures
        encode_le(a) != encode_le(b),
{
    if encode_le(a) == encode_le(b) {
        lemma_encode_le_injective(a, b);
    }
}

/// Order sensitivity: a struct whose declared members are reordered, or
/// changed in any way, has a different encoding.
pub proof fn lemma_order_sensitivity(
    ma: Seq<(Seq<u8>, PlaintextV)>,
    mb: Seq<(Seq<u8>, PlaintextV)>,
)
    requires
        encodable(PlaintextV::Struct { members: ma }),
        encodable(PlaintextV::Struct { members: mb }),
        ma != mb,
    ensures
        encode_le(PlaintextV::Struct { members: ma }) != encode_le(
            PlaintextV::Struct { members: mb },
        ),
{
    lemma_encode_le_distinct(
        PlaintextV::Struct { members: ma },
        PlaintextV::Struct { members: mb },
    );
}

} // verus!
