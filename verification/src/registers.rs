//! The per-execution typed register file for finalize-phase working state.
//!
//! A register file is exclusively owned by one execution context: created
//! when a finalize execution starts, mutated only by that execution's
//! interpreter, and discarded when the execution ends. Each locator is
//! either unassigned or assigned; a store validates the value's structural
//! shape against the externally supplied type table before committing it.

use vstd::prelude::*;

use std::collections::HashMap;

use crate::errors::StateError;
use crate::plaintext::{
    members_model, elements_model, lemma_members_model_index, lemma_elements_model_index,
    lemma_members_model_len, lemma_elements_model_len, Identifier, Plaintext, PlaintextV, Value,
};

verus! {

broadcast use vstd::std_specs::hash::group_hash_axioms;

/// A register reference: a directly assignable locator, or a member path
/// into a locator, which is never directly assignable.
pub enum Register {
    /// A numeric register address.
    Locator(u64),
    /// A member path rooted at a locator.
    Member(u64, Vec<Identifier>),
}

/// Two plaintext values have the same structural shape when they agree on
/// everything but literal bit patterns: literal kind and width, member
/// names and shapes in order, element shapes in order, and future targets
/// and input shapes.
pub open spec fn same_shape(a: PlaintextV, b: PlaintextV) -> bool
    decreases a,
{
    match (a, b) {
        (
            PlaintextV::Literal { variant: va, bits: ba },
            PlaintextV::Literal { variant: vb, bits: bb },
        ) => va == vb && ba.len() == bb.len(),
        (PlaintextV::Struct { members: ma }, PlaintextV::Struct { members: mb }) => {
            members_same_shape(ma, mb)
        },
        (PlaintextV::Array { elements: ea }, PlaintextV::Array { elements: eb }) => {
            elements_same_shape(ea, eb)
        },
        (
            PlaintextV::Future { program_name: pa, program_network: na, function_name: fa, inputs: ia },
            PlaintextV::Future { program_name: pb, program_network: nb, function_name: fb, inputs: ib },
        ) => pa == pb && na == nb && fa == fb && elements_same_shape(ia, ib),
        _ => false,
    }
}

/// Member lists of the same shape: equal length, equal names, and
/// same-shaped values, position by position.
pub open spec fn members_same_shape(
    ma: Seq<(Seq<u8>, PlaintextV)>,
    mb: Seq<(Seq<u8>, PlaintextV)>,
) -> bool
    decreases ma,
{
    if ma.len() != mb.len() {
        false
    } else if ma.len() == 0 {
        true
    } else {
        ma[0].0 == mb[0].0 && same_shape(ma[0].1, mb[0].1) && members_same_shape(
            ma.drop_first(),
            mb.drop_first(),
        )
    }
}

/// Element lists of the same shape: equal length and same-shaped
/// elements, position by position.
pub open spec fn elements_same_shape(ea: Seq<PlaintextV>, eb: Seq<PlaintextV>) -> bool
    decreases ea,
{
    if ea.len() != eb.len() {
        false
    } else if ea.len() == 0 {
        true
    } else {
        same_shape(ea[0], eb[0]) && elements_same_shape(ea.drop_first(), eb.drop_first())
    }
}

/// Compares two byte vectors.
fn bytes_eq(a: &Vec<u8>, b: &Vec<u8>) -> (r: bool)
    ensures
        r == (a@ == b@),
{
    if a.len() != b.len() {
        return false;
    }
    let mut i: usize = 0;
    while i < a.len()
        invariant
            i <= a.len(),
            a@.len() == b@.len(),
            forall|j: int| 0 <= j < i ==> a@[j] == b@[j],
        decreases a.len() - i,
    {
        if a[i] != b[i] {
            return false;
        }
        i = i + 1;
    }
    proof {
        assert(a@ =~= b@);
    }
    true
}

/// The structural type-matcher: decides whether two plaintext values have
/// the same structural shape.
#[verifier::loop_isolation(false)]
#[verifier::rlimit(60)]
pub fn same_type(a: &Plaintext, b: &Plaintext) -> (r: bool)
    ensures
        r == same_shape(a@, b@),
    decreases *a,
{
    match (a, b) {
        (Plaintext::Literal(la), Plaintext::Literal(lb)) => {
            la.variant == lb.variant && la.bits.len() == lb.bits.len()
        },
        (Plaintext::Struct(ma), Plaintext::Struct(mb)) => {
            proof {
                lemma_members_model_len(ma@);
                lemma_members_model_len(mb@);
            }
            if ma.len() != mb.len() {
                proof {
                    assert(!members_same_shape(members_model(ma@), members_model(mb@)));
                }
                return false;
            }
            let mut i: usize = 0;
            while i < ma.len()
                invariant
                    i <= ma.len(),
                    members_same_shape_to(members_model(ma@), members_model(mb@), i as int),
                decreases ma.len() - i,
            {
                proof {
                    lemma_members_model_index(ma@, i as int);
                    lemma_members_model_index(mb@, i as int);
                }
                let pa = &ma[i];
                let pb = &mb[i];
                if !bytes_eq(pa.0.as_bytes(), pb.0.as_bytes()) {
                    proof {
                        lemma_members_same_shape_bad(
                            members_model(ma@),
                            members_model(mb@),
                            i as int,
                        );
                    }
                    return false;
                }
                proof {
                    assert(decreases_to!(*a => ma@[i as int].1)) by {
                        assert(*a == Plaintext::Struct(*ma));
                        assert(decreases_to!(*a => (*a)->Struct_0));
                        assert(decreases_to!(*ma => ma@));
                        assert(decreases_to!(ma@ => ma@[i as int]));
                        assert(decreases_to!(ma@[i as int] => ma@[i as int].1));
                    }
                }
                if !same_type(&pa.1, &pb.1) {
                    proof {
                        lemma_members_same_shape_bad(
                            members_model(ma@),
                            members_model(mb@),
                            i as int,
                        );
                    }
                    return false;
                }
                i = i + 1;
            }
            proof {
                lemma_members_same_shape_full(members_model(ma@), members_model(mb@));
            }
            true
        },
        (Plaintext::Array(ea), Plaintext::Array(eb)) => {
            proof {
                lemma_elements_model_len(ea@);
                lemma_elements_model_len(eb@);
            }
            if ea.len() != eb.len() {
                proof {
                    assert(!elements_same_shape(elements_model(ea@), elements_model(eb@)));
                }
                return false;
            }
            let mut i: usize = 0;
            while i < ea.len()
                invariant
                    i <= ea.len(),
                    elements_same_shape_to(elements_model(ea@), elements_model(eb@), i as int),
                decreases ea.len() - i,
            {
                proof {
                    lemma_elements_model_index(ea@, i as int);
                    lemma_elements_model_index(eb@, i as int);
                    assert(decreases_to!(*a => ea@[i as int])) by {
                        assert(*a == Plaintext::Array(*ea));
                        assert(decreases_to!(*a => (*a)->Array_0));
                        assert(decreases_to!(*ea => ea@));
                        assert(decreases_to!(ea@ => ea@[i as int]));
                    }
                }
                if !same_type(&ea[i], &eb[i]) {
                    proof {
                        lemma_elements_same_shape_bad(
                            elements_model(ea@),
                            elements_model(eb@),
                            i as int,
                        );
                    }
                    return false;
                }
                i = i + 1;
            }
            proof {
                lemma_elements_same_shape_full(elements_model(ea@), elements_model(eb@));
            }
            true
        },
        (Plaintext::Future(fa), Plaintext::Future(fb)) => {
            proof {
                lemma_elements_model_len(fa.inputs@);
                lemma_elements_model_len(fb.inputs@);
            }
            if !bytes_eq(fa.program_name.as_bytes(), fb.program_name.as_bytes()) {
                return false;
            }
            if !bytes_eq(fa.program_network.as_bytes(), fb.program_network.as_bytes()) {
                return false;
            }
            if !bytes_eq(fa.function_name.as_bytes(), fb.function_name.as_bytes()) {
                return false;
            }
            if fa.inputs.len() != fb.inputs.len() {
                proof {
                    assert(!elements_same_shape(
                        elements_model(fa.inputs@),
                        elements_model(fb.inputs@),
                    ));
                }
                return false;
            }
            let mut i: usize = 0;
            while i < fa.inputs.len()
                invariant
                    i <= fa.inputs.len(),
                    elements_same_shape_to(
                        elements_model(fa.inputs@),
                        elements_model(fb.inputs@),
                        i as int,
                    ),
                decreases fa.inputs.len() - i,
            {
                proof {
                    lemma_elements_model_index(fa.inputs@, i as int);
                    lemma_elements_model_index(fb.inputs@, i as int);
                    assert(decreases_to!(*a => fa.inputs@[i as int])) by {
                        assert(*a == Plaintext::Future(*fa));
                        assert(decreases_to!(*a => (*a)->Future_0));
                        assert(decreases_to!(*fa => fa.inputs));
                        assert(decreases_to!(fa.inputs => fa.inputs@));
                        assert(decreases_to!(fa.inputs@ => fa.inputs@[i as int]));
                    }
                }
                if !same_type(&fa.inputs[i], &fb.inputs[i]) {
                    proof {
                        lemma_elements_same_shape_bad(
                            elements_model(fa.inputs@),
                            elements_model(fb.inputs@),
                            i as int,
                        );
                    }
                    return false;
                }
                i = i + 1;
            }
            proof {
                lemma_elements_same_shape_full(
                    elements_model(fa.inputs@),
                    elements_model(fb.inputs@),
                );
            }
            true
        },
        _ => {
            false
        },
    }
}

/// The member lists agree in length and in shape on the first `k`
/// positions.
pub open spec fn members_same_shape_to(
    ma: Seq<(Seq<u8>, PlaintextV)>,
    mb: Seq<(Seq<u8>, PlaintextV)>,
    k: int,
) -> bool {
    &&& ma.len() == mb.len()
    &&& forall|j: int|
        0 <= j < k ==> #[trigger] ma[j].0 == mb[j].0 && same_shape(ma[j].1, mb[j].1)
}

/// The element lists agree in length and in shape on the first `k`
/// positions.
pub open spec fn elements_same_shape_to(
    ea: Seq<PlaintextV>,
    eb: Seq<PlaintextV>,
    k: int,
) -> bool {
    &&& ea.len() == eb.len()
    &&& forall|j: int| 0 <= j < k ==> same_shape(#[trigger] ea[j], eb[j])
}

/// A positional disagreement refutes member-list shape equality.
pub proof fn lemma_members_same_shape_bad(
    ma: Seq<(Seq<u8>, PlaintextV)>,
    mb: Seq<(Seq<u8>, PlaintextV)>,
    i: int,
)
    requires
        ma.len() == mb.len(),
        0 <= i < ma.len(),
        !(ma[i].0 == mb[i].0 && same_shape(ma[i].1, mb[i].1)),
    ensures
        !members_same_shape(ma, mb),
    decreases ma.len(),
{
    if i > 0 {
        lemma_members_same_shape_bad(ma.drop_first(), mb.drop_first(), i - 1);
    }
}

/// A positional disagreement refutes element-list shape equality.
pub proof fn lemma_elements_same_shape_bad(ea: Seq<PlaintextV>, eb: Seq<PlaintextV>, i: int)
    requires
        ea.len() == eb.len(),
        0 <= i < ea.len(),
        !same_shape(ea[i], eb[i]),
    ensures
        !elements_same_shape(ea, eb),
    decreases ea.len(),
{
    if i > 0 {
        lemma_elements_same_shape_bad(ea.drop_first(), eb.drop_first(), i - 1);
    }
}

/// Positionwise agreement everywhere gives member-list shape equality.
pub proof fn lemma_members_same_shape_full(
    ma: Seq<(Seq<u8>, PlaintextV)>,
    mb: Seq<(Seq<u8>, PlaintextV)>,
)
    requires
        members_same_shape_to(ma, mb, ma.len() as int),
    ensures
        members_same_shape(ma, mb),
    decreases ma.len(),
{
    if ma.len() > 0 {
        assert(ma[0].0 == mb[0].0 && same_shape(ma[0].1, mb[0].1));
        assert(members_same_shape_to(ma.drop_first(), mb.drop_first(), ma.len() - 1)) by {
            assert(forall|j: int|
                0 <= j < ma.len() - 1 ==> ma.drop_first()[j] == ma[j + 1] && mb.drop_first()[j]
                    == mb[j + 1]);
        }
        lemma_members_same_shape_full(ma.drop_first(), mb.drop_first());
    }
}

/// Positionwise agreement everywhere gives element-list shape equality.
pub proof fn lemma_elements_same_shape_full(ea: Seq<PlaintextV>, eb: Seq<PlaintextV>)
    requires
        elements_same_shape_to(ea, eb, ea.len() as int),
    ensures
        elements_same_shape(ea, eb),
    decreases ea.len(),
{
    if ea.len() > 0 {
        assert(same_shape(ea[0], eb[0]));
        assert(elements_same_shape_to(ea.drop_first(), eb.drop_first(), ea.len() - 1)) by {
            assert(forall|j: int|
                0 <= j < ea.len() - 1 ==> ea.drop_first()[j] == ea[j + 1] && eb.drop_first()[j]
                    == eb[j + 1]);
        }
        lemma_elements_same_shape_full(ea.drop_first(), eb.drop_first());
    }
}

/// The externally owned type table: each declared locator maps to a
/// template value whose structural shape is the locator's declared type.
pub struct FinalizeTypes {
    types: HashMap<u64, Plaintext>,
}

impl FinalizeTypes {
    /// The table's contents.
    pub closed spec fn map(self) -> Map<u64, Plaintext> {
        self.types@
    }

    /// An empty type table.
    pub fn new() -> (r: FinalizeTypes)
        ensures
            r.map() == Map::<u64, Plaintext>::empty(),
    {
        FinalizeTypes { types: HashMap::new() }
    }

    /// Declares the type of a locator by a template of the declared shape,
    /// replacing any earlier declaration.
    pub fn declare(&mut self, locator: u64, template: Plaintext)
        ensures
            final(self).map() == old(self).map().insert(locator, template),
    {
        self.types.insert(locator, template);
    }
}

/// The typed key-value store for one finalize execution's working state.
pub struct FinalizeRegisters {
    registers: HashMap<u64, Plaintext>,
    finalize_types: FinalizeTypes,
}

impl FinalizeRegisters {
    /// The assigned registers.
    pub closed spec fn registers_map(self) -> Map<u64, Plaintext> {
        self.registers@
    }

    /// The associated type table.
    pub closed spec fn types_map(self) -> Map<u64, Plaintext> {
        self.finalize_types.map()
    }

    /// An empty register file over the given type table.
    pub fn new(finalize_types: FinalizeTypes) -> (r: FinalizeRegisters)
        ensures
            r.registers_map() == Map::<u64, Plaintext>::empty(),
            r.types_map() == finalize_types.map(),
    {
        FinalizeRegisters { registers: HashMap::new(), finalize_types }
    }

    /// The value assigned to a locator, if any.
    pub fn get(&self, locator: u64) -> (r: Option<&Plaintext>)
        ensures
            match r {
                Some(v) => self.registers_map().contains_key(locator) && *v
                    == self.registers_map()[locator],
                None => !self.registers_map().contains_key(locator),
            },
    {
        self.registers.get(&locator)
    }

    /// Assigns `stack_value` to `register`.
    ///
    /// Fails with `ValueKindRejected` on a record, `NotAssignable` on a
    /// member register, `UndeclaredRegister` when the locator has no
    /// declared type, and `TypeMismatch` when the value's structural shape
    /// differs from the declared one. On success the value replaces
    /// whatever the locator held; on failure the register file is
    /// untouched.
    pub fn store(&mut self, register: &Register, stack_value: Value) -> (r: Result<
        (),
        StateError,
    >)
        ensures
            r is Err ==> *final(self) == *old(self),
            r == Err::<(), StateError>(StateError::ValueKindRejected) <==> stack_value is Record,
            r == Err::<(), StateError>(StateError::NotAssignable) <==> stack_value is Plaintext
                && register is Member,
            r == Err::<(), StateError>(StateError::UndeclaredRegister) <==> stack_value
                is Plaintext && register is Locator && !old(self).types_map().contains_key(
                register->Locator_0,
            ),
            r == Err::<(), StateError>(StateError::TypeMismatch) <==> stack_value is Plaintext
                && register is Locator && old(self).types_map().contains_key(register->Locator_0)
                && !same_shape(
                stack_value->Plaintext_0@,
                old(self).types_map()[register->Locator_0]@,
            ),
            r is Ok <==> stack_value is Plaintext && register is Locator && old(
                self,
            ).types_map().contains_key(register->Locator_0) && same_shape(
                stack_value->Plaintext_0@,
                old(self).types_map()[register->Locator_0]@,
            ),
            r is Ok ==> final(self).registers_map() == old(self).registers_map().insert(
                register->Locator_0,
                stack_value->Plaintext_0,
            ),
            final(self).types_map() == old(self).types_map(),
    {
        let plaintext_value = match stack_value {
            Value::Plaintext(plaintext) => plaintext,
            Value::Record(_) => {
                return Err(StateError::ValueKindRejected);
            },
        };
        match register {
            Register::Locator(locator) => {
                let template = match self.finalize_types.types.get(locator) {
                    Some(t) => t,
                    None => {
                        return Err(StateError::UndeclaredRegister);
                    },
                };
                if !same_type(&plaintext_value, template) {
                    return Err(StateError::TypeMismatch);
                }
                self.registers.insert(*locator, plaintext_value);
                Ok(())
            },
            Register::Member(..) => {
                return Err(StateError::NotAssignable);
            },
        }
    }
}

/// Shape agreement is transitive.
pub proof fn lemma_same_shape_trans(a: PlaintextV, b: PlaintextV, c: PlaintextV)
    requires
        same_shape(a, b),
        same_shape(b, c),
    ensures
        same_shape(a, c),
    decreases a,
{
    match (a, b, c) {
        (
            PlaintextV::Struct { members: ma },
            PlaintextV::Struct { members: mb },
            PlaintextV::Struct { members: mc },
        ) => {
            lemma_members_same_shape_trans(ma, mb, mc);
        },
        (
            PlaintextV::Array { elements: ea },
            PlaintextV::Array { elements: eb },
            PlaintextV::Array { elements: ec },
        ) => {
            lemma_elements_same_shape_trans(ea, eb, ec);
        },
        (
            PlaintextV::Future { inputs: ia, .. },
            PlaintextV::Future { inputs: ib, .. },
            PlaintextV::Future { inputs: ic, .. },
        ) => {
            lemma_elements_same_shape_trans(ia, ib, ic);
        },
        _ => {},
    }
}

/// Member-list shape agreement is transitive.
pub proof fn lemma_members_same_shape_trans(
    ma: Seq<(Seq<u8>, PlaintextV)>,
    mb: Seq<(Seq<u8>, PlaintextV)>,
    mc: Seq<(Seq<u8>, PlaintextV)>,
)
    requires
        members_same_shape(ma, mb),
        members_same_shape(mb, mc),
    ensures
        members_same_shape(ma, mc),
    decreases ma,
{
    if ma.len() > 0 {
        lemma_same_shape_trans(ma[0].1, mb[0].1, mc[0].1);
        lemma_members_same_shape_trans(ma.drop_first(), mb.drop_first(), mc.drop_first());
    }
}

/// Element-list shape agreement is transitive.
pub proof fn lemma_elements_same_shape_trans(
    ea: Seq<PlaintextV>,
    eb: Seq<PlaintextV>,
    ec: Seq<PlaintextV>,
)
    requires
        elements_same_shape(ea, eb),
        elements_same_shape(eb, ec),
    ensures
        elements_same_shape(ea, ec),
    decreases ea,
{
    if ea.len() > 0 {
        lemma_same_shape_trans(ea[0], eb[0], ec[0]);
        lemma_elements_same_shape_trans(ea.drop_first(), eb.drop_first(), ec.drop_first());
    }
}

/// Re-store law: when a value of shape `a` was accepted at a declared
/// locator, any value whose shape agrees with `a` is accepted there too,
/// and by `store`'s contract it then replaces the content; a value whose
/// shape disagrees with the declared one is rejected with `TypeMismatch`
/// and halts the execution.
pub proof fn lemma_restore_same_shape(
    types: Map<u64, Plaintext>,
    locator: u64,
    a: PlaintextV,
    b: PlaintextV,
)
    requires
        types.contains_key(locator),
        same_shape(a, types[locator]@),
        same_shape(b, a),
    ensures
        same_shape(b, types[locator]@),
{
    lemma_same_shape_trans(b, a, types[locator]@);
}

} // verus!
