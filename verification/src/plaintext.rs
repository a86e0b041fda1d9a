//! The hierarchical program value model: literals, structs, arrays and
//! future (deferred cross-program call) descriptors, together with the
//! ghost models that the codec and register contracts are stated over.

use vstd::prelude::*;

use crate::errors::StateError;

verus! {

/// The longest name an identifier may carry: its bit length is emitted
/// as a one-byte prefix, so eight times the byte length must fit in a byte.
pub const MAX_IDENTIFIER_BYTES: usize = 31;

/// A bounded symbolic name, always encoded behind an explicit bit-length
/// prefix.
#[derive(Clone, Debug)]
pub struct Identifier {
    name: Vec<u8>,
}

impl View for Identifier {
    type V = Seq<u8>;

    closed spec fn view(&self) -> Seq<u8> {
        self.name@
    }
}

impl Identifier {
    /// A name is acceptable when it is nonempty and short enough for its
    /// bit length to fit the one-byte wire prefix.
    pub open spec fn spec_wf(name: Seq<u8>) -> bool {
        1 <= name.len() <= MAX_IDENTIFIER_BYTES
    }

    /// Builds an identifier, rejecting names outside the permitted length.
    pub fn new(name: Vec<u8>) -> (r: Result<Identifier, StateError>)
        ensures
            r is Ok <==> Self::spec_wf(name@),
            r is Ok ==> r.unwrap()@ == name@,
            r is Err ==> r.unwrap_err() == StateError::ProtocolLimitExceeded,
    {
        if name.len() < 1 || name.len() > MAX_IDENTIFIER_BYTES {
            Err(StateError::ProtocolLimitExceeded)
        } else {
            Ok(Identifier { name })
        }
    }

    /// The name bytes.
    pub fn as_bytes(&self) -> (r: &Vec<u8>)
        ensures
            r@ == self@,
    {
        &self.name
    }

    /// The number of bytes in the name.
    pub fn len(&self) -> (r: usize)
        ensures
            r == self@.len(),
    {
        self.name.len()
    }
}

/// A primitive scalar: a kind tag and its little-endian bit pattern.
#[derive(Clone, Debug)]
pub struct Literal {
    /// The literal-kind tag emitted after the variant bits.
    pub variant: u8,
    /// The literal's bits, least-significant first.
    pub bits: Vec<bool>,
}

/// A deferred cross-program call descriptor: target program, function,
/// and the ordered arguments.
pub struct FutureValue {
    /// The name part of the target program's ID.
    pub program_name: Identifier,
    /// The network part of the target program's ID.
    pub program_network: Identifier,
    /// The target function's name.
    pub function_name: Identifier,
    /// The ordered call arguments.
    pub inputs: Vec<Plaintext>,
}

/// A structured, unencrypted program value.
///
/// Struct member order is declaration order and is semantically
/// significant: it is never re-sorted.
pub enum Plaintext {
    /// A primitive scalar.
    Literal(Literal),
    /// An ordered mapping from member name to member value.
    Struct(Vec<(Identifier, Plaintext)>),
    /// An ordered sequence of elements.
    Array(Vec<Plaintext>),
    /// A deferred cross-program call descriptor.
    Future(FutureValue),
}

/// The ghost model of a plaintext value: the same tree over mathematical
/// sequences, which the codec and register contracts are stated over.
pub enum PlaintextV {
    Literal { variant: u8, bits: Seq<bool> },
    Struct { members: Seq<(Seq<u8>, PlaintextV)> },
    Array { elements: Seq<PlaintextV> },
    Future {
        program_name: Seq<u8>,
        program_network: Seq<u8>,
        function_name: Seq<u8>,
        inputs: Seq<PlaintextV>,
    },
}

impl Plaintext {
    /// The ghost model of this value.
    pub open spec fn model(self) -> PlaintextV
        decreases self,
    {
        match self {
            Plaintext::Literal(lit) => PlaintextV::Literal { variant: lit.variant, bits: lit.bits@ },
            Plaintext::Struct(members) => PlaintextV::Struct {
                members: members_model(members@),
            },
            Plaintext::Array(elements) => PlaintextV::Array {
                elements: elements_model(elements@),
            },
            Plaintext::Future(f) => PlaintextV::Future {
                program_name: f.program_name@,
                program_network: f.program_network@,
                function_name: f.function_name@,
                inputs: elements_model(f.inputs@),
            },
        }
    }
}

/// The ghost models of a member list, in declaration order.
pub open spec fn members_model(s: Seq<(Identifier, Plaintext)>) -> Seq<(Seq<u8>, PlaintextV)>
    decreases s,
{
    if s.len() == 0 {
        Seq::empty()
    } else {
        seq![(s[0].0@, s[0].1.model())] + members_model(s.drop_first())
    }
}

/// The ghost models of an element list, in order.
pub open spec fn elements_model(s: Seq<Plaintext>) -> Seq<PlaintextV>
    decreases s,
{
    if s.len() == 0 {
        Seq::empty()
    } else {
        seq![s[0].model()] + elements_model(s.drop_first())
    }
}

/// Indexing into the model of a member list mirrors indexing into the list.
pub proof fn lemma_members_model_index(s: Seq<(Identifier, Plaintext)>, i: int)
    requires
        0 <= i < s.len(),
    ensures
        members_model(s).len() == s.len(),
        members_model(s)[i] == (s[i].0@, s[i].1.model()),
    decreases s.len(),
{
    lemma_members_model_len(s);
    if i > 0 {
        lemma_members_model_index(s.drop_first(), i - 1);
    }
}

/// The model of a member list has the list's length.
pub proof fn lemma_members_model_len(s: Seq<(Identifier, Plaintext)>)
    ensures
        members_model(s).len() == s.len(),
    decreases s.len(),
{
    if s.len() > 0 {
        lemma_members_model_len(s.drop_first());
    }
}

/// Indexing into the model of an element list mirrors indexing into the list.
pub proof fn lemma_elements_model_index(s: Seq<Plaintext>, i: int)
    requires
        0 <= i < s.len(),
    ensures
        elements_model(s).len() == s.len(),
        elements_model(s)[i] == s[i].model(),
    decreases s.len(),
{
    lemma_elements_model_len(s);
    if i > 0 {
        lemma_elements_model_index(s.drop_first(), i - 1);
    }
}

/// The model of an element list has the list's length.
pub proof fn lemma_elements_model_len(s: Seq<Plaintext>)
    ensures
        elements_model(s).len() == s.len(),
    decreases s.len(),
{
    if s.len() > 0 {
        lemma_elements_model_len(s.drop_first());
    }
}

impl View for Plaintext {
    type V = PlaintextV;

    open spec fn view(&self) -> PlaintextV {
        self.model()
    }
}

/// A value supplied to a register store: only plaintext values are
/// permitted in finalize context; records belong to an external
/// collaborator and are rejected.
pub enum Value {
    /// A structured program value.
    Plaintext(Plaintext),
    /// An opaque record ciphertext, kept only to be rejected.
    Record(Vec<u8>),
}

} // verus!
