//! Account key material, modeled over plain values.
//!
//! Key derivation itself (the PRF from a seed to the signing scalars, and
//! the group arithmetic behind the public parts) belongs to an external
//! cryptographic collaborator: this module treats the derived components
//! as opaque inputs in canonical form, validates them, and handles the
//! key's canonical byte and string layout.

use vstd::prelude::*;

use base58::{FromBase58, ToBase58};

use crate::errors::StateError;

verus! {

/// Limb 0 (least significant) of the scalar field's order.
pub const MODULUS_L0: u64 = 0xb95aee9ac33fd9ff;

/// Limb 1 of the scalar field's order.
pub const MODULUS_L1: u64 = 0x5293a3afc43c8afe;

/// Limb 2 of the scalar field's order.
pub const MODULUS_L2: u64 = 0x982d1347970dec00;

/// Limb 3 (most significant) of the scalar field's order.
pub const MODULUS_L3: u64 = 0x4aad957a68b2955;

/// The scalar field's order.
pub open spec fn scalar_modulus() -> nat {
    MODULUS_L0 as nat + 0x10000000000000000 * ((MODULUS_L1 as nat) + 0x10000000000000000 * ((
    MODULUS_L2 as nat) + 0x10000000000000000 * (MODULUS_L3 as nat)))
}

/// A scalar field element in canonical form, held as four 64-bit limbs,
/// least significant first.
#[derive(Clone, Copy, PartialEq, Eq, Structural, Debug)]
pub struct Scalar {
    /// Limb 0, least significant.
    pub l0: u64,
    /// Limb 1.
    pub l1: u64,
    /// Limb 2.
    pub l2: u64,
    /// Limb 3, most significant.
    pub l3: u64,
}

impl Scalar {
    /// The integer this scalar stands for.
    pub open spec fn val(self) -> nat {
        self.l0 as nat + 0x10000000000000000 * ((self.l1 as nat) + 0x10000000000000000 * ((
        self.l2 as nat) + 0x10000000000000000 * (self.l3 as nat)))
    }

    /// Canonical form: strictly below the field's order.
    pub open spec fn wf(self) -> bool {
        self.val() < scalar_modulus()
    }

    /// Builds a scalar from its limbs, rejecting a value at or above the
    /// field's order.
    pub fn new(l0: u64, l1: u64, l2: u64, l3: u64) -> (r: Result<Scalar, StateError>)
        ensures
            r is Ok <==> (Scalar { l0, l1, l2, l3 }).val() < scalar_modulus(),
            r is Ok ==> r.unwrap() == (Scalar { l0, l1, l2, l3 }),
            r is Err ==> r.unwrap_err() == StateError::MalformedKey,
    {
        let below = l3 < MODULUS_L3 || (l3 == MODULUS_L3 && (l2 < MODULUS_L2 || (l2 == MODULUS_L2
            && (l1 < MODULUS_L1 || (l1 == MODULUS_L1 && l0 < MODULUS_L0)))));
        if below {
            Ok(Scalar { l0, l1, l2, l3 })
        } else {
            Err(StateError::MalformedKey)
        }
    }

    /// The limbs, least significant first.
    pub fn limbs(&self) -> (r: (u64, u64, u64, u64))
        ensures
            (Scalar { l0: r.0, l1: r.1, l2: r.2, l3: r.3 }) == *self,
    {
        (self.l0, self.l1, self.l2, self.l3)
    }
}

/// The account compute key: the opaque public parts, and the PRF secret
/// the decryption key is built from.
#[derive(Clone, Debug)]
pub struct ComputeKey {
    /// The signature public key, as opaque canonical bytes.
    pub pk_sig: Vec<u8>,
    /// The signature randomizer's public part, as opaque canonical bytes.
    pub pr_sig: Vec<u8>,
    /// The PRF secret key.
    pub sk_prf: Scalar,
}

/// The number of bytes in an account seed.
pub const SEED_BYTES: usize = 32;

/// An account private key: the seed and the components an external
/// derivation supplies from it.
#[derive(Debug)]
pub struct PrivateKey {
    seed: Vec<u8>,
    sk_sig: Scalar,
    r_sig: Scalar,
    compute_key: ComputeKey,
}

impl PrivateKey {
    /// The seed.
    pub closed spec fn seed_view(self) -> Seq<u8> {
        self.seed@
    }

    /// The signing secret.
    pub closed spec fn sk_sig(self) -> Scalar {
        self.sk_sig
    }

    /// The signature randomizer secret.
    pub closed spec fn r_sig(self) -> Scalar {
        self.r_sig
    }

    /// The PRF secret held by the compute key.
    pub closed spec fn sk_prf(self) -> Scalar {
        self.compute_key.sk_prf
    }

    /// The compute key's public parts.
    pub closed spec fn compute_key_view(self) -> (Seq<u8>, Seq<u8>) {
        (self.compute_key.pk_sig@, self.compute_key.pr_sig@)
    }

    /// Well-formed: a full-length seed and canonical scalars.
    pub open spec fn wf(self) -> bool {
        &&& self.seed_view().len() == SEED_BYTES
        &&& self.sk_sig().wf()
        &&& self.r_sig().wf()
        &&& self.sk_prf().wf()
    }

    /// Assembles a private key from externally derived components,
    /// rejecting a seed of the wrong length.
    pub fn from_components(
        seed: Vec<u8>,
        sk_sig: Scalar,
        r_sig: Scalar,
        compute_key: ComputeKey,
    ) -> (r: Result<PrivateKey, StateError>)
        requires
            sk_sig.wf(),
            r_sig.wf(),
            compute_key.sk_prf.wf(),
        ensures
            r is Ok <==> seed@.len() == SEED_BYTES,
            r is Ok ==> {
                let key = r.unwrap();
                &&& key.wf()
                &&& key.seed_view() == seed@
                &&& key.sk_sig() == sk_sig
                &&& key.r_sig() == r_sig
                &&& key.sk_prf() == compute_key.sk_prf
                &&& key.compute_key_view() == (compute_key.pk_sig@, compute_key.pr_sig@)
            },
            r is Err ==> r.unwrap_err() == StateError::MalformedKey,
    {
        if seed.len() != SEED_BYTES {
            return Err(StateError::MalformedKey);
        }
        Ok(PrivateKey { seed, sk_sig, r_sig, compute_key })
    }

    /// Whether the key is well-formed.
    pub fn is_valid(&self) -> (r: bool)
        ensures
            r == self.wf(),
    {
        let (s0, s1, s2, s3) = self.sk_sig.limbs();
        let (r0, r1, r2, r3) = self.r_sig.limbs();
        let (p0, p1, p2, p3) = self.compute_key.sk_prf.limbs();
        self.seed.len() == SEED_BYTES && scalar_below_modulus(s0, s1, s2, s3)
            && scalar_below_modulus(r0, r1, r2, r3) && scalar_below_modulus(p0, p1, p2, p3)
    }

    /// The account compute key.
    pub fn to_compute_key(&self) -> (r: Result<ComputeKey, StateError>)
        ensures
            r is Ok,
            r.unwrap().sk_prf == self.sk_prf(),
            (r.unwrap().pk_sig@, r.unwrap().pr_sig@) == self.compute_key_view(),
    {
        Ok(ComputeKey {
            pk_sig: copy_bytes(&self.compute_key.pk_sig),
            pr_sig: copy_bytes(&self.compute_key.pr_sig),
            sk_prf: self.compute_key.sk_prf,
        })
    }
}

/// Whether four limbs, least significant first, name a value strictly
/// below the scalar field's order.
fn scalar_below_modulus(l0: u64, l1: u64, l2: u64, l3: u64) -> (r: bool)
    ensures
        r == ((Scalar { l0, l1, l2, l3 }).val() < scalar_modulus()),
{
    l3 < MODULUS_L3 || (l3 == MODULUS_L3 && (l2 < MODULUS_L2 || (l2 == MODULUS_L2 && (l1
        < MODULUS_L1 || (l1 == MODULUS_L1 && l0 < MODULUS_L0)))))
}

/// Copies a byte vector.
fn copy_bytes(v: &Vec<u8>) -> (r: Vec<u8>)
    ensures
        r@ == v@,
{
    let mut out: Vec<u8> = Vec::new();
    let mut i: usize = 0;
    while i < v.len()
        invariant
            i <= v.len(),
            out@ == v@.subrange(0, i as int),
        decreases v.len() - i,
    {
        out.push(v[i]);
        proof {
            assert(v@.subrange(0, i + 1 as int) =~= v@.subrange(0, i as int).push(v@[i as int]));
        }
        i = i + 1;
    }
    proof {
        assert(v@.subrange(0, v@.len() as int) =~= v@);
    }
    out
}

/// What the outside base58 encoder returns for the given bytes: a pure
/// function of the bytes alone.
pub uninterp spec fn base58_of(bytes: Seq<u8>) -> Seq<char>;

/// What the outside base58 decoder returns, when it accepts the string:
/// a pure function of the string alone.
pub uninterp spec fn base58_bytes_of(s: Seq<char>) -> Seq<u8>;

/// Relies on base58's `ToBase58` for byte slices; the crate documents
/// support for inputs up to 128 bytes, and the result depends on the
/// bytes alone.
#[verifier::external_body]
fn base58_encode(bytes: &Vec<u8>) -> (r: String)
    requires
        bytes@.len() <= 128,
    ensures
        r@ == base58_of(bytes@),
{
    bytes.as_slice().to_base58()
}

/// Relies on base58's `FromBase58` for strings; its decode buffer holds
/// 132 bytes, so longer inputs are kept out, and an accepted string's
/// decoding depends on the string alone.
#[verifier::external_body]
fn base58_decode(s: &str) -> (r: Result<Vec<u8>, StateError>)
    requires
        s@.len() <= 132,
    ensures
        r is Ok ==> r.unwrap()@ == base58_bytes_of(s@),
        r is Err ==> r.unwrap_err() == StateError::MalformedKey,
{
    match s.from_base58() {
        Ok(bytes) => Ok(bytes),
        Err(_) => Err(StateError::MalformedKey),
    }
}

/// The number of bytes in a serialized private key: the prefix and the
/// seed.
pub const PRIVATE_KEY_BYTES: usize = 43;

/// The 11-byte prefix every serialized private key starts with.
pub open spec fn private_key_prefix() -> Seq<u8> {
    seq![127u8, 134u8, 189u8, 116u8, 210u8, 221u8, 210u8, 137u8, 144u8, 18u8, 203u8]
}

/// Builds the private-key prefix bytes.
fn private_key_prefix_bytes() -> (r: Vec<u8>)
    ensures
        r@ == private_key_prefix(),
{
    let mut out: Vec<u8> = Vec::new();
    out.push(127u8);
    out.push(134u8);
    out.push(189u8);
    out.push(116u8);
    out.push(210u8);
    out.push(221u8);
    out.push(210u8);
    out.push(137u8);
    out.push(144u8);
    out.push(18u8);
    out.push(203u8);
    proof {
        assert(out@ =~= private_key_prefix());
    }
    out
}

impl PrivateKey {
    /// Serializes the key: the 11-byte prefix, then the 32-byte seed,
    /// encoded in base58.
    pub fn to_base58_string(&self) -> (r: String)
        requires
            self.wf(),
        ensures
            r@ == base58_of(private_key_prefix() + self.seed_view()),
    {
        let mut bytes = private_key_prefix_bytes();
        let mut i: usize = 0;
        while i < self.seed.len()
            invariant
                i <= self.seed.len(),
                bytes@ == private_key_prefix() + self.seed@.subrange(0, i as int),
            decreases self.seed.len() - i,
        {
            bytes.push(self.seed[i]);
            proof {
                assert(private_key_prefix() + self.seed@.subrange(0, i + 1 as int)
                    =~= (private_key_prefix() + self.seed@.subrange(0, i as int)).push(
                    self.seed@[i as int],
                ));
            }
            i = i + 1;
        }
        proof {
            assert(self.seed@.subrange(0, self.seed@.len() as int) =~= self.seed@);
            assert(private_key_prefix() + Seq::<u8>::empty() =~= private_key_prefix());
            assert(self.seed@.subrange(0, 0) =~= Seq::<u8>::empty());
            assert(bytes@.len() == 43);
        }
        base58_encode(&bytes)
    }
}

/// Validates a decoded private-key byte string and extracts the seed:
/// the bytes must be exactly 43 long and carry the prefix; the remaining
/// 32 bytes are the seed.
pub fn parse_private_key_bytes(data: &Vec<u8>) -> (r: Result<Vec<u8>, StateError>)
    ensures
        r is Ok <==> data@.len() == PRIVATE_KEY_BYTES && data@.subrange(0, 11)
            == private_key_prefix(),
        r is Ok ==> r.unwrap()@ == data@.subrange(11, PRIVATE_KEY_BYTES as int),
        r is Err ==> r.unwrap_err() == StateError::MalformedKey,
{
    if data.len() != PRIVATE_KEY_BYTES {
        return Err(StateError::MalformedKey);
    }
    let prefix = private_key_prefix_bytes();
    let mut i: usize = 0;
    while i < 11
        invariant
            i <= 11,
            data@.len() == 43,
            prefix@ == private_key_prefix(),
            forall|k: int| 0 <= k < i ==> data@[k] == private_key_prefix()[k],
        decreases 11 - i,
    {
        if data[i] != prefix[i] {
            proof {
                assert(data@.subrange(0, 11)[i as int] != private_key_prefix()[i as int]);
            }
            return Err(StateError::MalformedKey);
        }
        i = i + 1;
    }
    let mut seed: Vec<u8> = Vec::new();
    let mut i: usize = 11;
    while i < PRIVATE_KEY_BYTES
        invariant
            11 <= i <= 43,
            data@.len() == 43,
            seed@ == data@.subrange(11, i as int),
        decreases PRIVATE_KEY_BYTES - i,
    {
        seed.push(data[i]);
        proof {
            assert(data@.subrange(11, i + 1 as int) =~= data@.subrange(11, i as int).push(
                data@[i as int],
            ));
        }
        i = i + 1;
    }
    proof {
        assert(data@.subrange(0, 11) =~= private_key_prefix());
        assert(data@.subrange(11, 11) =~= Seq::<u8>::empty());
    }
    Ok(seed)
}

/// Decodes a private-key string and extracts the seed. Whatever the
/// outside decoder accepts is then held to the canonical layout: 43
/// bytes behind the prefix.
pub fn seed_from_base58(s: &str) -> (r: Result<Vec<u8>, StateError>)
    requires
        s@.len() <= 132,
    ensures
        r is Ok ==> {
            &&& base58_bytes_of(s@).len() == PRIVATE_KEY_BYTES
            &&& base58_bytes_of(s@).subrange(0, 11) == private_key_prefix()
            &&& r.unwrap()@ == base58_bytes_of(s@).subrange(11, PRIVATE_KEY_BYTES as int)
        },
        r is Err ==> r.unwrap_err() == StateError::MalformedKey,
{
    match base58_decode(s) {
        Ok(data) => parse_private_key_bytes(&data),
        Err(e) => Err(e),
    }
}

} // verus!
