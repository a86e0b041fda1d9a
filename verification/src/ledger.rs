//! The multi-index persistent store for transactions and transitions.
//!
//! Every index is derived from the authoritative transaction and
//! transition records: an ID map, a reverse map for deployments, the
//! transition map, and uniqueness indices over serial numbers,
//! commitments, nonces and transition public keys. An insert validates
//! first and commits as one atomic unit: a rejected transaction leaves
//! every index untouched.

use vstd::prelude::*;

use std::collections::HashMap;

use crate::errors::StateError;

verus! {

broadcast use vstd::std_specs::hash::group_hash_axioms;

/// An origin reference declared by a transition: a record commitment, or
/// a ledger state root.
#[derive(Clone, Copy, PartialEq, Eq, Structural, Debug)]
pub enum Origin {
    /// A record commitment that must already be indexed.
    Commitment(u64),
    /// A state-root kind, not yet supported by this store.
    StateRoot(u64),
}

/// The atomic effect record of one function invocation.
#[derive(Debug)]
pub struct Transition {
    /// The transition's ID.
    pub id: u64,
    /// The transition public key.
    pub tpk: u64,
    /// The consumed serial numbers.
    pub serial_numbers: Vec<u64>,
    /// The produced commitments.
    pub commitments: Vec<u64>,
    /// The produced nonces.
    pub nonces: Vec<u64>,
    /// The declared origins.
    pub origins: Vec<Origin>,
}

/// The ghost model of a transition.
pub struct TransitionV {
    pub id: u64,
    pub tpk: u64,
    pub serial_numbers: Seq<u64>,
    pub commitments: Seq<u64>,
    pub nonces: Seq<u64>,
    pub origins: Seq<Origin>,
}

impl View for Transition {
    type V = TransitionV;

    open spec fn view(&self) -> TransitionV {
        TransitionV {
            id: self.id,
            tpk: self.tpk,
            serial_numbers: self.serial_numbers@,
            commitments: self.commitments@,
            nonces: self.nonces@,
            origins: self.origins@,
        }
    }
}

/// A program deployment: the program's functions and the verifying key
/// supplied for each.
#[derive(Debug)]
pub struct Deployment {
    /// The deployed program's ID.
    pub program_id: u64,
    /// The program's function names.
    pub functions: Vec<u64>,
    /// One verifying key per function: (function name, key).
    pub verifying_keys: Vec<(u64, u64)>,
}

/// The ghost model of a deployment.
pub struct DeploymentV {
    pub program_id: u64,
    pub functions: Seq<u64>,
    pub verifying_keys: Seq<(u64, u64)>,
}

impl View for Deployment {
    type V = DeploymentV;

    open spec fn view(&self) -> DeploymentV {
        DeploymentV {
            program_id: self.program_id,
            functions: self.functions@,
            verifying_keys: self.verifying_keys@,
        }
    }
}

/// A transaction submitted to the store: a deployment, or a bundle of
/// transitions with an optional fee transition.
#[derive(Debug)]
pub enum Transaction {
    /// (transaction ID, deployment)
    Deploy(u64, Deployment),
    /// (transaction ID, transitions, optional fee transition)
    Execute(u64, Vec<Transition>, Option<Transition>),
}

/// The ghost model of a transaction.
pub enum TransactionV {
    Deploy(u64, DeploymentV),
    Execute(u64, Seq<TransitionV>, Option<TransitionV>),
}

/// The models of a transition list, position by position.
pub open spec fn transitions_view(v: Seq<Transition>) -> Seq<TransitionV> {
    Seq::new(v.len(), |i: int| v[i]@)
}

impl View for Transaction {
    type V = TransactionV;

    open spec fn view(&self) -> TransactionV {
        match self {
            Transaction::Deploy(id, d) => TransactionV::Deploy(*id, d@),
            Transaction::Execute(id, ts, fee) => TransactionV::Execute(
                *id,
                transitions_view(ts@),
                match fee {
                    Some(f) => Some(f@),
                    None => None,
                },
            ),
        }
    }
}

impl TransactionV {
    /// The transaction's ID.
    pub open spec fn spec_id(self) -> u64 {
        match self {
            TransactionV::Deploy(id, _) => id,
            TransactionV::Execute(id, _, _) => id,
        }
    }

    /// Every transition the transaction carries, the fee last.
    pub open spec fn all_transitions(self) -> Seq<TransitionV> {
        match self {
            TransactionV::Deploy(_, _) => Seq::empty(),
            TransactionV::Execute(_, ts, fee) => match fee {
                Some(f) => ts.push(f),
                None => ts,
            },
        }
    }
}

/// What the ID map records for a transaction: the deployed program, or
/// the transition IDs with the optional fee transition ID.
#[derive(Debug)]
pub enum TransactionType {
    /// A deployment: the program ID.
    Deploy(u64),
    /// An execution: its transition IDs and optional fee transition ID.
    Execute(Vec<u64>, Option<u64>),
}

/// The ghost model of a transaction type record.
pub enum TransactionTypeV {
    Deploy(u64),
    Execute(Seq<u64>, Option<u64>),
}

impl View for TransactionType {
    type V = TransactionTypeV;

    open spec fn view(&self) -> TransactionTypeV {
        match self {
            TransactionType::Deploy(pid) => TransactionTypeV::Deploy(*pid),
            TransactionType::Execute(tids, fee) => TransactionTypeV::Execute(tids@, *fee),
        }
    }
}

/// The type record a transaction commits under.
pub open spec fn tx_type_of(txv: TransactionV) -> TransactionTypeV {
    match txv {
        TransactionV::Deploy(_, d) => TransactionTypeV::Deploy(d.program_id),
        TransactionV::Execute(_, ts, fee) => TransactionTypeV::Execute(
            Seq::new(ts.len(), |i: int| ts[i].id),
            match fee {
                Some(f) => Some(f.id),
                None => None,
            },
        ),
    }
}

/// The multi-index transaction store.
pub struct LedgerStore {
    id_map: HashMap<u64, TransactionType>,
    reverse_id_map: HashMap<u64, u64>,
    deployment_map: HashMap<u64, Deployment>,
    transition_map: HashMap<u64, Transition>,
    serial_number_map: HashMap<u64, u64>,
    commitment_map: HashMap<u64, u64>,
    nonce_map: HashMap<u64, u64>,
    tpk_map: HashMap<u64, u64>,
}

impl LedgerStore {
    /// Transaction ID to type record.
    pub closed spec fn id_map(self) -> Map<u64, TransactionType> {
        self.id_map@
    }

    /// Program ID to deploying transaction ID: the inverse of the ID map
    /// restricted to deployments.
    pub closed spec fn reverse_id_map(self) -> Map<u64, u64> {
        self.reverse_id_map@
    }

    /// Deploying transaction ID to deployment record.
    pub closed spec fn deployment_map(self) -> Map<u64, Deployment> {
        self.deployment_map@
    }

    /// Transition ID to transition record.
    pub closed spec fn transition_map(self) -> Map<u64, Transition> {
        self.transition_map@
    }

    /// Serial number to consuming transition ID.
    pub closed spec fn serial_number_map(self) -> Map<u64, u64> {
        self.serial_number_map@
    }

    /// Commitment to producing transition ID.
    pub closed spec fn commitment_map(self) -> Map<u64, u64> {
        self.commitment_map@
    }

    /// Nonce to producing transition ID.
    pub closed spec fn nonce_map(self) -> Map<u64, u64> {
        self.nonce_map@
    }

    /// Transition public key to transition ID.
    pub closed spec fn tpk_map(self) -> Map<u64, u64> {
        self.tpk_map@
    }

    /// An empty store.
    pub fn new() -> (r: LedgerStore)
        ensures
            r.id_map() == Map::<u64, TransactionType>::empty(),
            r.reverse_id_map() == Map::<u64, u64>::empty(),
            r.deployment_map() == Map::<u64, Deployment>::empty(),
            r.transition_map() == Map::<u64, Transition>::empty(),
            r.serial_number_map() == Map::<u64, u64>::empty(),
            r.commitment_map() == Map::<u64, u64>::empty(),
            r.nonce_map() == Map::<u64, u64>::empty(),
            r.tpk_map() == Map::<u64, u64>::empty(),
    {
        LedgerStore {
            id_map: HashMap::new(),
            reverse_id_map: HashMap::new(),
            deployment_map: HashMap::new(),
            transition_map: HashMap::new(),
            serial_number_map: HashMap::new(),
            commitment_map: HashMap::new(),
            nonce_map: HashMap::new(),
            tpk_map: HashMap::new(),
        }
    }

    /// Whether a transaction ID is indexed.
    pub fn contains_transaction_id(&self, id: u64) -> (r: bool)
        ensures
            r == self.id_map().contains_key(id),
    {
        self.id_map.contains_key(&id)
    }

    /// Whether a serial number is already consumed.
    pub fn contains_serial_number(&self, key: u64) -> (r: bool)
        ensures
            r == self.serial_number_map().contains_key(key),
    {
        self.serial_number_map.contains_key(&key)
    }

    /// Whether a commitment is indexed.
    pub fn contains_commitment(&self, key: u64) -> (r: bool)
        ensures
            r == self.commitment_map().contains_key(key),
    {
        self.commitment_map.contains_key(&key)
    }

    /// Whether a nonce is indexed.
    pub fn contains_nonce(&self, key: u64) -> (r: bool)
        ensures
            r == self.nonce_map().contains_key(key),
    {
        self.nonce_map.contains_key(&key)
    }

    /// Whether a transition public key is indexed.
    pub fn contains_transition_public_key(&self, key: u64) -> (r: bool)
        ensures
            r == self.tpk_map().contains_key(key),
    {
        self.tpk_map.contains_key(&key)
    }

    /// The transition indexed under the given ID; `MissingReference` when
    /// absent.
    pub fn get_transition(&self, id: u64) -> (r: Result<&Transition, StateError>)
        ensures
            r is Ok <==> self.transition_map().contains_key(id),
            r is Ok ==> *r.unwrap() == self.transition_map()[id],
            r is Err ==> r.unwrap_err() == StateError::MissingReference,
    {
        match self.transition_map.get(&id) {
            Some(t) => Ok(t),
            None => Err(StateError::MissingReference),
        }
    }
}

/// The transition ID at position `i`.
pub open spec fn id_at(ts: Seq<TransitionV>, i: int) -> u64 {
    ts[i].id
}

/// The transition public key at position `i`.
pub open spec fn tpk_at(ts: Seq<TransitionV>, i: int) -> u64 {
    ts[i].tpk
}

/// The serial number at position `(i, j)`.
pub open spec fn sn_at(ts: Seq<TransitionV>, i: int, j: int) -> u64 {
    ts[i].serial_numbers[j]
}

/// Position `(i, j)` indexes a serial number.
pub open spec fn sn_in_range(ts: Seq<TransitionV>, i: int, j: int) -> bool {
    0 <= i < ts.len() && 0 <= j < ts[i].serial_numbers.len()
}

/// The commitment at position `(i, j)`.
pub open spec fn cm_at(ts: Seq<TransitionV>, i: int, j: int) -> u64 {
    ts[i].commitments[j]
}

/// Position `(i, j)` indexes a commitment.
pub open spec fn cm_in_range(ts: Seq<TransitionV>, i: int, j: int) -> bool {
    0 <= i < ts.len() && 0 <= j < ts[i].commitments.len()
}

/// The nonce at position `(i, j)`.
pub open spec fn nonce_at(ts: Seq<TransitionV>, i: int, j: int) -> u64 {
    ts[i].nonces[j]
}

/// Position `(i, j)` indexes a nonce.
pub open spec fn nonce_in_range(ts: Seq<TransitionV>, i: int, j: int) -> bool {
    0 <= i < ts.len() && 0 <= j < ts[i].nonces.len()
}

/// The origin at position `(i, j)`.
pub open spec fn origin_at(ts: Seq<TransitionV>, i: int, j: int) -> Origin {
    ts[i].origins[j]
}

/// Position `(i, j)` indexes an origin.
pub open spec fn origin_in_range(ts: Seq<TransitionV>, i: int, j: int) -> bool {
    0 <= i < ts.len() && 0 <= j < ts[i].origins.len()
}

/// No transition ID occurs twice within the bundle.
pub open spec fn ids_distinct(ts: Seq<TransitionV>) -> bool {
    forall|i1: int, i2: int|
        0 <= i1 < ts.len() && 0 <= i2 < ts.len() && i1 != i2 ==> #[trigger] id_at(ts, i1)
            != #[trigger] id_at(ts, i2)
}

/// No transition public key occurs twice within the bundle.
pub open spec fn tpks_distinct(ts: Seq<TransitionV>) -> bool {
    forall|i1: int, i2: int|
        0 <= i1 < ts.len() && 0 <= i2 < ts.len() && i1 != i2 ==> #[trigger] tpk_at(ts, i1)
            != #[trigger] tpk_at(ts, i2)
}

/// No serial number occurs twice within the bundle.
pub open spec fn sns_distinct(ts: Seq<TransitionV>) -> bool {
    forall|i1: int, j1: int, i2: int, j2: int|
        #![trigger sn_at(ts, i1, j1), sn_at(ts, i2, j2)]
        sn_in_range(ts, i1, j1) && sn_in_range(ts, i2, j2) && !(i1 == i2 && j1 == j2) ==> sn_at(
            ts,
            i1,
            j1,
        ) != sn_at(ts, i2, j2)
}

/// No commitment occurs twice within the bundle.
pub open spec fn cms_distinct(ts: Seq<TransitionV>) -> bool {
    forall|i1: int, j1: int, i2: int, j2: int|
        #![trigger cm_at(ts, i1, j1), cm_at(ts, i2, j2)]
        cm_in_range(ts, i1, j1) && cm_in_range(ts, i2, j2) && !(i1 == i2 && j1 == j2) ==> cm_at(
            ts,
            i1,
            j1,
        ) != cm_at(ts, i2, j2)
}

/// No nonce occurs twice within the bundle.
pub open spec fn nonces_distinct(ts: Seq<TransitionV>) -> bool {
    forall|i1: int, j1: int, i2: int, j2: int|
        #![trigger nonce_at(ts, i1, j1), nonce_at(ts, i2, j2)]
        nonce_in_range(ts, i1, j1) && nonce_in_range(ts, i2, j2) && !(i1 == i2 && j1 == j2)
            ==> nonce_at(ts, i1, j1) != nonce_at(ts, i2, j2)
}

/// None of the bundle's transition IDs is indexed yet.
pub open spec fn ids_fresh(s: LedgerStore, ts: Seq<TransitionV>) -> bool {
    forall|i: int|
        0 <= i < ts.len() ==> !s.transition_map().contains_key(#[trigger] id_at(ts, i))
}

/// None of the bundle's transition public keys is indexed yet.
pub open spec fn tpks_fresh(s: LedgerStore, ts: Seq<TransitionV>) -> bool {
    forall|i: int| 0 <= i < ts.len() ==> !s.tpk_map().contains_key(#[trigger] tpk_at(ts, i))
}

/// None of the bundle's serial numbers is indexed yet.
pub open spec fn sns_fresh(s: LedgerStore, ts: Seq<TransitionV>) -> bool {
    forall|i: int, j: int|
        sn_in_range(ts, i, j) ==> !s.serial_number_map().contains_key(#[trigger] sn_at(ts, i, j))
}

/// None of the bundle's commitments is indexed yet.
pub open spec fn cms_fresh(s: LedgerStore, ts: Seq<TransitionV>) -> bool {
    forall|i: int, j: int|
        cm_in_range(ts, i, j) ==> !s.commitment_map().contains_key(#[trigger] cm_at(ts, i, j))
}

/// None of the bundle's nonces is indexed yet.
pub open spec fn nonces_fresh(s: LedgerStore, ts: Seq<TransitionV>) -> bool {
    forall|i: int, j: int|
        nonce_in_range(ts, i, j) ==> !s.nonce_map().contains_key(#[trigger] nonce_at(ts, i, j))
}

/// The bundle's keys collide nowhere: not among themselves and not with
/// the store.
pub open spec fn keys_admissible(s: LedgerStore, ts: Seq<TransitionV>) -> bool {
    &&& ids_distinct(ts) && ids_fresh(s, ts)
    &&& tpks_distinct(ts) && tpks_fresh(s, ts)
    &&& sns_distinct(ts) && sns_fresh(s, ts)
    &&& cms_distinct(ts) && cms_fresh(s, ts)
    &&& nonces_distinct(ts) && nonces_fresh(s, ts)
}

/// Every origin is of a supported kind: state roots are not yet
/// supported.
pub open spec fn origins_supported(ts: Seq<TransitionV>) -> bool {
    forall|i: int, j: int|
        origin_in_range(ts, i, j) ==> !(#[trigger] origin_at(ts, i, j) is StateRoot)
}

/// Every commitment origin resolves to an indexed commitment.
pub open spec fn origins_resolve(s: LedgerStore, ts: Seq<TransitionV>) -> bool {
    forall|i: int, j: int|
        origin_in_range(ts, i, j) && #[trigger] origin_at(ts, i, j) is Commitment
            ==> s.commitment_map().contains_key(origin_at(ts, i, j)->Commitment_0)
}

/// The verifying-key names, in order.
pub open spec fn vk_names(d: DeploymentV) -> Seq<u64> {
    Seq::new(d.verifying_keys.len(), |j: int| d.verifying_keys[j].0)
}

/// The set of program functions is exactly the set of supplied verifying
/// keys.
pub open spec fn deployment_keys_match(d: DeploymentV) -> bool {
    &&& d.functions.len() == d.verifying_keys.len()
    &&& forall|i: int|
        0 <= i < d.functions.len() ==> vk_names(d).contains(#[trigger] d.functions[i])
    &&& forall|j: int|
        0 <= j < d.verifying_keys.len() ==> d.functions.contains(#[trigger] d.verifying_keys[j].0)
}

/// The validation verdict for inserting `txv` into store `s`, in check
/// order: a duplicate transaction ID, program ID or key collision is a
/// `DuplicateKey`; a deployment whose functions and verifying keys do not
/// coincide is a `MissingReference`; an unsupported origin kind is an
/// `UnsupportedOrigin`, distinctly from a commitment origin that resolves
/// to nothing, which is a `MissingReference`. `None` means the
/// transaction commits.
pub open spec fn insert_check(s: LedgerStore, txv: TransactionV) -> Option<StateError> {
    if s.id_map().contains_key(txv.spec_id()) {
        Some(StateError::DuplicateKey)
    } else {
        match txv {
            TransactionV::Deploy(_, d) => {
                if s.reverse_id_map().contains_key(d.program_id) {
                    Some(StateError::DuplicateKey)
                } else if !deployment_keys_match(d) {
                    Some(StateError::MissingReference)
                } else {
                    None
                }
            },
            TransactionV::Execute(_, _, _) => {
                let ts = txv.all_transitions();
                if !keys_admissible(s, ts) {
                    Some(StateError::DuplicateKey)
                } else if !origins_supported(ts) {
                    Some(StateError::UnsupportedOrigin)
                } else if !origins_resolve(s, ts) {
                    Some(StateError::MissingReference)
                } else {
                    None
                }
            },
        }
    }
}

/// Linear search in a list of function names.
fn vec_contains_u64(v: &Vec<u64>, x: u64) -> (r: bool)
    ensures
        r == v@.contains(x),
{
    let mut i: usize = 0;
    while i < v.len()
        invariant
            i <= v.len(),
            forall|k: int| 0 <= k < i ==> v@[k] != x,
        decreases v.len() - i,
    {
        if v[i] == x {
            return true;
        }
        i = i + 1;
    }
    false
}

/// Linear search among the verifying keys' function names.
fn vk_contains_name(vks: &Vec<(u64, u64)>, x: u64) -> (r: bool)
    ensures
        r == (exists|j: int| 0 <= j < vks@.len() && vks@[j].0 == x),
{
    let mut i: usize = 0;
    while i < vks.len()
        invariant
            i <= vks.len(),
            forall|k: int| 0 <= k < i ==> vks@[k].0 != x,
        decreases vks.len() - i,
    {
        if vks[i].0 == x {
            return true;
        }
        i = i + 1;
    }
    false
}

/// Checks that the program's functions and the supplied verifying keys
/// name exactly the same set.
fn deployment_keys_ok(d: &Deployment) -> (r: bool)
    ensures
        r == deployment_keys_match(d@),
{
    if d.functions.len() != d.verifying_keys.len() {
        return false;
    }
    let mut i: usize = 0;
    while i < d.functions.len()
        invariant
            i <= d.functions.len(),
            forall|k: int| 0 <= k < i ==> vk_names(d@).contains(#[trigger] d.functions@[k]),
        decreases d.functions.len() - i,
    {
        if !vk_contains_name(&d.verifying_keys, d.functions[i]) {
            proof {
                assert(forall|j: int|
                    0 <= j < d.verifying_keys@.len() ==> vk_names(d@)[j]
                        == d.verifying_keys@[j].0);
                assert(!vk_names(d@).contains(d.functions@[i as int]));
            }
            return false;
        }
        proof {
            let j = choose|j: int| 0 <= j < d.verifying_keys@.len() && d.verifying_keys@[j].0
                == d.functions@[i as int];
            assert(vk_names(d@)[j] == d.functions@[i as int]);
        }
        i = i + 1;
    }
    let mut j: usize = 0;
    while j < d.verifying_keys.len()
        invariant
            j <= d.verifying_keys.len(),
            forall|k: int|
                0 <= k < j ==> d.functions@.contains(#[trigger] d.verifying_keys@[k].0),
        decreases d.verifying_keys.len() - j,
    {
        if !vec_contains_u64(&d.functions, d.verifying_keys[j].0) {
            return false;
        }
        j = j + 1;
    }
    true
}

/// Checks that no origin is a state root.
fn origins_supported_check(all: &Vec<Transition>) -> (r: bool)
    ensures
        r == origins_supported(transitions_view(all@)),
{
    let ghost tv = transitions_view(all@);
    let mut i: usize = 0;
    while i < all.len()
        invariant
            i <= all.len(),
            tv == transitions_view(all@),
            forall|i0: int, j0: int|
                origin_in_range(tv, i0, j0) && i0 < i ==> !(#[trigger] origin_at(tv, i0, j0)
                    is StateRoot),
        decreases all.len() - i,
    {
        let t = &all[i];
        let mut j: usize = 0;
        while j < t.origins.len()
            invariant
                i < all.len(),
                j <= t.origins.len(),
                tv == transitions_view(all@),
                t == &all@[i as int],
                forall|i0: int, j0: int|
                    origin_in_range(tv, i0, j0) && (i0 < i || (i0 == i && j0 < j)) ==> !(
                    #[trigger] origin_at(tv, i0, j0) is StateRoot),
            decreases t.origins.len() - j,
        {
            match t.origins[j] {
                Origin::StateRoot(_) => {
                    proof {
                        assert(origin_in_range(tv, i as int, j as int));
                        assert(origin_at(tv, i as int, j as int) is StateRoot);
                    }
                    return false;
                },
                Origin::Commitment(_) => {},
            }
            j = j + 1;
        }
        i = i + 1;
    }
    true
}

impl LedgerStore {
    /// Checks that every commitment origin resolves to an indexed
    /// commitment.
    fn origins_resolve_check(&self, all: &Vec<Transition>) -> (r: bool)
        ensures
            r == origins_resolve(*self, transitions_view(all@)),
    {
        let ghost tv = transitions_view(all@);
        let mut i: usize = 0;
        while i < all.len()
            invariant
                i <= all.len(),
                tv == transitions_view(all@),
                forall|i0: int, j0: int|
                    origin_in_range(tv, i0, j0) && i0 < i && #[trigger] origin_at(tv, i0, j0)
                        is Commitment ==> self.commitment_map().contains_key(
                        origin_at(tv, i0, j0)->Commitment_0,
                    ),
            decreases all.len() - i,
        {
            let t = &all[i];
            let mut j: usize = 0;
            while j < t.origins.len()
                invariant
                    i < all.len(),
                    j <= t.origins.len(),
                    tv == transitions_view(all@),
                    t == &all@[i as int],
                    forall|i0: int, j0: int|
                        origin_in_range(tv, i0, j0) && (i0 < i || (i0 == i && j0 < j))
                            && #[trigger] origin_at(tv, i0, j0) is Commitment
                            ==> self.commitment_map().contains_key(
                            origin_at(tv, i0, j0)->Commitment_0,
                        ),
                decreases t.origins.len() - j,
            {
                match t.origins[j] {
                    Origin::Commitment(c) => {
                        if !self.commitment_map.contains_key(&c) {
                            proof {
                                assert(origin_in_range(tv, i as int, j as int));
                                assert(origin_at(tv, i as int, j as int) == Origin::Commitment(
                                    c,
                                ));
                            }
                            return false;
                        }
                    },
                    Origin::StateRoot(_) => {},
                }
                j = j + 1;
            }
            i = i + 1;
        }
        true
    }

    /// Checks the bundle's transition IDs and public keys: distinct
    /// within the bundle and absent from the store.
    fn ids_tpks_check(&self, all: &Vec<Transition>) -> (r: bool)
        ensures
            r == (ids_distinct(transitions_view(all@)) && ids_fresh(
                *self,
                transitions_view(all@),
            ) && tpks_distinct(transitions_view(all@)) && tpks_fresh(
                *self,
                transitions_view(all@),
            )),
    {
        let ghost tv = transitions_view(all@);
        let mut seen_ids: HashMap<u64, ()> = HashMap::new();
        let mut seen_tpks: HashMap<u64, ()> = HashMap::new();
        let mut i: usize = 0;
        while i < all.len()
            invariant
                i <= all.len(),
                tv == transitions_view(all@),
                forall|i0: int|
                    0 <= i0 < i ==> !self.transition_map().contains_key(#[trigger] id_at(tv, i0)),
                forall|i0: int|
                    0 <= i0 < i ==> !self.tpk_map().contains_key(#[trigger] tpk_at(tv, i0)),
                forall|i0: int, i1: int|
                    0 <= i0 < i1 < i ==> #[trigger] id_at(tv, i0) != #[trigger] id_at(tv, i1),
                forall|i0: int, i1: int|
                    0 <= i0 < i1 < i ==> #[trigger] tpk_at(tv, i0) != #[trigger] tpk_at(tv, i1),
                forall|x: u64| #[trigger]
                    seen_ids@.contains_key(x) <==> exists|i0: int|
                        0 <= i0 < i && #[trigger] id_at(tv, i0) == x,
                forall|x: u64| #[trigger]
                    seen_tpks@.contains_key(x) <==> exists|i0: int|
                        0 <= i0 < i && #[trigger] tpk_at(tv, i0) == x,
            decreases all.len() - i,
        {
            let t = &all[i];
            proof {
                assert(tv[i as int] == all@[i as int]@);
            }
            if self.transition_map.contains_key(&t.id) || self.tpk_map.contains_key(&t.tpk) {
                proof {
                    assert(id_at(tv, i as int) == t.id && tpk_at(tv, i as int) == t.tpk);
                }
                return false;
            }
            if seen_ids.contains_key(&t.id) {
                proof {
                    let i0 = choose|i0: int| 0 <= i0 < i && #[trigger] id_at(tv, i0) == t.id;
                    assert(id_at(tv, i as int) == t.id);
                    assert(!ids_distinct(tv));
                }
                return false;
            }
            if seen_tpks.contains_key(&t.tpk) {
                proof {
                    let i0 = choose|i0: int| 0 <= i0 < i && #[trigger] tpk_at(tv, i0) == t.tpk;
                    assert(tpk_at(tv, i as int) == t.tpk);
                    assert(!tpks_distinct(tv));
                }
                return false;
            }
            seen_ids.insert(t.id, ());
            seen_tpks.insert(t.tpk, ());
            proof {
                assert(id_at(tv, i as int) == t.id && tpk_at(tv, i as int) == t.tpk);
                assert(!self.transition_map().contains_key(t.id));
                assert(!self.tpk_map().contains_key(t.tpk));
                assert(forall|i0: int|
                    0 <= i0 < i + 1 ==> !self.transition_map().contains_key(
                        #[trigger] id_at(tv, i0),
                    ));
                assert(forall|i0: int|
                    0 <= i0 < i + 1 ==> !self.tpk_map().contains_key(
                        #[trigger] tpk_at(tv, i0),
                    ));
                assert forall|x: u64| #[trigger] seen_ids@.contains_key(x) implies exists|i0: int|
                    0 <= i0 < i + 1 && #[trigger] id_at(tv, i0) == x by {
                    if x == t.id {
                        assert(id_at(tv, i as int) == x);
                    }
                }
                assert forall|x: u64| #[trigger] seen_tpks@.contains_key(x) implies exists|
                    i0: int,
                |
                    0 <= i0 < i + 1 && #[trigger] tpk_at(tv, i0) == x by {
                    if x == t.tpk {
                        assert(tpk_at(tv, i as int) == x);
                    }
                }
            }
            i = i + 1;
        }
        proof {
            assert(tv.len() == all@.len());
            assert forall|i1: int, i2: int|
                0 <= i1 < tv.len() && 0 <= i2 < tv.len() && i1 != i2 implies #[trigger] id_at(
                tv,
                i1,
            ) != #[trigger] id_at(tv, i2) by {
                if i1 < i2 {
                } else {
                }
            }
            assert forall|i1: int, i2: int|
                0 <= i1 < tv.len() && 0 <= i2 < tv.len() && i1 != i2 implies #[trigger] tpk_at(
                tv,
                i1,
            ) != #[trigger] tpk_at(tv, i2) by {
                if i1 < i2 {
                } else {
                }
            }
            assert(ids_distinct(tv));
            assert(tpks_distinct(tv));
            assert(ids_fresh(*self, tv));
            assert(tpks_fresh(*self, tv));
        }
        true
    }
}

impl LedgerStore {
    /// Checks the bundle's serial numbers: distinct within the bundle and
    /// absent from the store.
    fn serial_numbers_check(&self, all: &Vec<Transition>) -> (r: bool)
        ensures
            r == (sns_distinct(transitions_view(all@)) && sns_fresh(
                *self,
                transitions_view(all@),
            )),
    {
        let ghost tv = transitions_view(all@);
        let mut seen: HashMap<u64, ()> = HashMap::new();
        let mut i: usize = 0;
        while i < all.len()
            invariant
                i <= all.len(),
                tv == transitions_view(all@),
                forall|i0: int, j0: int|
                    sn_in_range(tv, i0, j0) && i0 < i ==> !self.serial_number_map().contains_key(
                        #[trigger] sn_at(tv, i0, j0),
                    ),
                forall|i0: int, j0: int, i1: int, j1: int|
                    #![trigger sn_at(tv, i0, j0), sn_at(tv, i1, j1)]
                    sn_in_range(tv, i0, j0) && sn_in_range(tv, i1, j1) && (i0 < i1 || (i0 == i1
                        && j0 < j1)) && i1 < i ==> sn_at(tv, i0, j0) != sn_at(tv, i1, j1),
                forall|x: u64| #[trigger]
                    seen@.contains_key(x) <==> exists|i0: int, j0: int|
                        sn_in_range(tv, i0, j0) && i0 < i && #[trigger] sn_at(tv, i0, j0) == x,
            decreases all.len() - i,
        {
            let t = &all[i];
            proof {
                assert(tv[i as int] == all@[i as int]@);
            }
            let mut j: usize = 0;
            while j < t.serial_numbers.len()
                invariant
                    i < all.len(),
                    j <= t.serial_numbers.len(),
                    tv == transitions_view(all@),
                    t == &all@[i as int],
                    tv[i as int] == all@[i as int]@,
                    forall|i0: int, j0: int|
                        sn_in_range(tv, i0, j0) && (i0 < i || (i0 == i && j0 < j))
                            ==> !self.serial_number_map().contains_key(
                            #[trigger] sn_at(tv, i0, j0),
                        ),
                    forall|i0: int, j0: int, i1: int, j1: int|
                        #![trigger sn_at(tv, i0, j0), sn_at(tv, i1, j1)]
                        sn_in_range(tv, i0, j0) && sn_in_range(tv, i1, j1) && (i0 < i1 || (i0
                            == i1 && j0 < j1)) && (i1 < i || (i1 == i && j1 < j)) ==> sn_at(
                            tv,
                            i0,
                            j0,
                        ) != sn_at(tv, i1, j1),
                    forall|x: u64| #[trigger]
                        seen@.contains_key(x) <==> exists|i0: int, j0: int|
                            sn_in_range(tv, i0, j0) && (i0 < i || (i0 == i && j0 < j))
                                && #[trigger] sn_at(tv, i0, j0) == x,
                decreases t.serial_numbers.len() - j,
            {
                let sn = t.serial_numbers[j];
                proof {
                    assert(sn_in_range(tv, i as int, j as int));
                    assert(sn_at(tv, i as int, j as int) == sn);
                }
                if self.serial_number_map.contains_key(&sn) {
                    return false;
                }
                if seen.contains_key(&sn) {
                    proof {
                        let (i0, j0): (int, int) = choose|i0: int, j0: int|
                            sn_in_range(tv, i0, j0) && (i0 < i || (i0 == i && j0 < j))
                                && #[trigger] sn_at(tv, i0, j0) == sn;
                        assert(!(i0 == i && j0 == j));
                        assert(!sns_distinct(tv));
                    }
                    return false;
                }
                let ghost seen0 = seen@;
                seen.insert(sn, ());
                proof {
                    assert forall|x: u64| #[trigger] seen@.contains_key(x) implies exists|
                        i0: int,
                        j0: int,
                    |
                        sn_in_range(tv, i0, j0) && (i0 < i || (i0 == i && j0 < j + 1))
                            && #[trigger] sn_at(tv, i0, j0) == x by {
                        if x == sn {
                            assert(sn_at(tv, i as int, j as int) == x);
                        } else {
                            assert(seen0.contains_key(x));
                        }
                    }
                    assert forall|i0: int, j0: int, i1: int, j1: int|
                        #![trigger sn_at(tv, i0, j0), sn_at(tv, i1, j1)]
                        sn_in_range(tv, i0, j0) && sn_in_range(tv, i1, j1) && (i0 < i1 || (i0
                            == i1 && j0 < j1)) && (i1 < i || (i1 == i && j1 < j + 1)) implies
                        sn_at(tv, i0, j0) != sn_at(tv, i1, j1) by {
                        if i1 == i && j1 == j {
                            assert(!seen0.contains_key(sn));
                            if sn_at(tv, i0, j0) == sn {
                                assert(seen0.contains_key(sn_at(tv, i0, j0)));
                            }
                        }
                    }
                }
                j = j + 1;
            }
            proof {
                assert forall|x: u64| #[trigger] seen@.contains_key(x) implies exists|
                    i0: int,
                    j0: int,
                |
                    sn_in_range(tv, i0, j0) && i0 < i + 1 && #[trigger] sn_at(tv, i0, j0)
                        == x by {
                    let (i0, j0): (int, int) = choose|i0: int, j0: int|
                        sn_in_range(tv, i0, j0) && (i0 < i || (i0 == i && j0
                            < t.serial_numbers@.len())) && #[trigger] sn_at(tv, i0, j0) == x;
                    assert(sn_in_range(tv, i0, j0) && i0 < i + 1 && sn_at(tv, i0, j0) == x);
                }
                assert forall|x: u64|
                    (exists|i0: int, j0: int|
                        sn_in_range(tv, i0, j0) && i0 < i + 1 && #[trigger] sn_at(tv, i0, j0)
                            == x) implies #[trigger] seen@.contains_key(x) by {
                    let (i0, j0): (int, int) = choose|i0: int, j0: int|
                        sn_in_range(tv, i0, j0) && i0 < i + 1 && #[trigger] sn_at(tv, i0, j0)
                            == x;
                    assert(sn_in_range(tv, i0, j0) && (i0 < i || (i0 == i && j0
                        < t.serial_numbers@.len())) && sn_at(tv, i0, j0) == x);
                }
            }
            i = i + 1;
        }
        proof {
            assert(tv.len() == all@.len());
            assert forall|i0: int, j0: int, i1: int, j1: int|
                #![trigger sn_at(tv, i0, j0), sn_at(tv, i1, j1)]
                sn_in_range(tv, i0, j0) && sn_in_range(tv, i1, j1) && !(i0 == i1 && j0 == j1)
                    implies sn_at(tv, i0, j0) != sn_at(tv, i1, j1) by {
                if i0 < i1 || (i0 == i1 && j0 < j1) {
                } else {
                }
            }
            assert(sns_distinct(tv));
            assert(sns_fresh(*self, tv));
        }
        true
    }
}

impl LedgerStore {
    /// Checks the bundle's commitments: distinct within the bundle and
    /// absent from the store.
    fn commitments_check(&self, all: &Vec<Transition>) -> (r: bool)
        ensures
            r == (cms_distinct(transitions_view(all@)) && cms_fresh(
                *self,
                transitions_view(all@),
            )),
    {
        let ghost tv = transitions_view(all@);
        let mut seen: HashMap<u64, ()> = HashMap::new();
        let mut i: usize = 0;
        while i < all.len()
            invariant
                i <= all.len(),
                tv == transitions_view(all@),
                forall|i0: int, j0: int|
                    cm_in_range(tv, i0, j0) && i0 < i ==> !self.commitment_map().contains_key(
                        #[trigger] cm_at(tv, i0, j0),
                    ),
                forall|i0: int, j0: int, i1: int, j1: int|
                    #![trigger cm_at(tv, i0, j0), cm_at(tv, i1, j1)]
                    cm_in_range(tv, i0, j0) && cm_in_range(tv, i1, j1) && (i0 < i1 || (i0 == i1
                        && j0 < j1)) && i1 < i ==> cm_at(tv, i0, j0) != cm_at(tv, i1, j1),
                forall|x: u64| #[trigger]
                    seen@.contains_key(x) <==> exists|i0: int, j0: int|
                        cm_in_range(tv, i0, j0) && i0 < i && #[trigger] cm_at(tv, i0, j0) == x,
            decreases all.len() - i,
        {
            let t = &all[i];
            proof {
                assert(tv[i as int] == all@[i as int]@);
            }
            let mut j: usize = 0;
            while j < t.commitments.len()
                invariant
                    i < all.len(),
                    j <= t.commitments.len(),
                    tv == transitions_view(all@),
                    t == &all@[i as int],
                    tv[i as int] == all@[i as int]@,
                    forall|i0: int, j0: int|
                        cm_in_range(tv, i0, j0) && (i0 < i || (i0 == i && j0 < j))
                            ==> !self.commitment_map().contains_key(
                            #[trigger] cm_at(tv, i0, j0),
                        ),
                    forall|i0: int, j0: int, i1: int, j1: int|
                        #![trigger cm_at(tv, i0, j0), cm_at(tv, i1, j1)]
                        cm_in_range(tv, i0, j0) && cm_in_range(tv, i1, j1) && (i0 < i1 || (i0
                            == i1 && j0 < j1)) && (i1 < i || (i1 == i && j1 < j)) ==> cm_at(
                            tv,
                            i0,
                            j0,
                        ) != cm_at(tv, i1, j1),
                    forall|x: u64| #[trigger]
                        seen@.contains_key(x) <==> exists|i0: int, j0: int|
                            cm_in_range(tv, i0, j0) && (i0 < i || (i0 == i && j0 < j))
                                && #[trigger] cm_at(tv, i0, j0) == x,
                decreases t.commitments.len() - j,
            {
                let key = t.commitments[j];
                proof {
                    assert(cm_in_range(tv, i as int, j as int));
                    assert(cm_at(tv, i as int, j as int) == key);
                }
                if self.commitment_map.contains_key(&key) {
                    return false;
                }
                if seen.contains_key(&key) {
                    proof {
                        let (i0, j0): (int, int) = choose|i0: int, j0: int|
                            cm_in_range(tv, i0, j0) && (i0 < i || (i0 == i && j0 < j))
                                && #[trigger] cm_at(tv, i0, j0) == key;
                        assert(!(i0 == i && j0 == j));
                        assert(!cms_distinct(tv));
                    }
                    return false;
                }
                let ghost seen0 = seen@;
                seen.insert(key, ());
                proof {
                    assert forall|x: u64| #[trigger] seen@.contains_key(x) implies exists|
                        i0: int,
                        j0: int,
                    |
                        cm_in_range(tv, i0, j0) && (i0 < i || (i0 == i && j0 < j + 1))
                            && #[trigger] cm_at(tv, i0, j0) == x by {
                        if x == key {
                            assert(cm_at(tv, i as int, j as int) == x);
                        } else {
                            assert(seen0.contains_key(x));
                        }
                    }
                    assert forall|i0: int, j0: int, i1: int, j1: int|
                        #![trigger cm_at(tv, i0, j0), cm_at(tv, i1, j1)]
                        cm_in_range(tv, i0, j0) && cm_in_range(tv, i1, j1) && (i0 < i1 || (i0
                            == i1 && j0 < j1)) && (i1 < i || (i1 == i && j1 < j + 1)) implies
                        cm_at(tv, i0, j0) != cm_at(tv, i1, j1) by {
                        if i1 == i && j1 == j {
                            assert(!seen0.contains_key(key));
                            if cm_at(tv, i0, j0) == key {
                                assert(seen0.contains_key(cm_at(tv, i0, j0)));
                            }
                        }
                    }
                }
                j = j + 1;
            }
            proof {
                assert forall|x: u64| #[trigger] seen@.contains_key(x) implies exists|
                    i0: int,
                    j0: int,
                |
                    cm_in_range(tv, i0, j0) && i0 < i + 1 && #[trigger] cm_at(tv, i0, j0)
                        == x by {
                    let (i0, j0): (int, int) = choose|i0: int, j0: int|
                        cm_in_range(tv, i0, j0) && (i0 < i || (i0 == i && j0
                            < t.commitments@.len())) && #[trigger] cm_at(tv, i0, j0) == x;
                    assert(cm_in_range(tv, i0, j0) && i0 < i + 1 && cm_at(tv, i0, j0) == x);
                }
                assert forall|x: u64|
                    (exists|i0: int, j0: int|
                        cm_in_range(tv, i0, j0) && i0 < i + 1 && #[trigger] cm_at(tv, i0, j0)
                            == x) implies #[trigger] seen@.contains_key(x) by {
                    let (i0, j0): (int, int) = choose|i0: int, j0: int|
                        cm_in_range(tv, i0, j0) && i0 < i + 1 && #[trigger] cm_at(tv, i0, j0)
                            == x;
                    assert(cm_in_range(tv, i0, j0) && (i0 < i || (i0 == i && j0
                        < t.commitments@.len())) && cm_at(tv, i0, j0) == x);
                }
            }
            i = i + 1;
        }
        proof {
            assert(tv.len() == all@.len());
            assert forall|i0: int, j0: int, i1: int, j1: int|
                #![trigger cm_at(tv, i0, j0), cm_at(tv, i1, j1)]
                cm_in_range(tv, i0, j0) && cm_in_range(tv, i1, j1) && !(i0 == i1 && j0 == j1)
                    implies cm_at(tv, i0, j0) != cm_at(tv, i1, j1) by {
                if i0 < i1 || (i0 == i1 && j0 < j1) {
                } else {
                }
            }
            assert(cms_distinct(tv));
            assert(cms_fresh(*self, tv));
        }
        true
    }
}

impl LedgerStore {
    /// Checks the bundle's nonces: distinct within the bundle and
    /// absent from the store.
    fn nonces_check(&self, all: &Vec<Transition>) -> (r: bool)
        ensures
            r == (nonces_distinct(transitions_view(all@)) && nonces_fresh(
                *self,
                transitions_view(all@),
            )),
    {
        let ghost tv = transitions_view(all@);
        let mut seen: HashMap<u64, ()> = HashMap::new();
        let mut i: usize = 0;
        while i < all.len()
            invariant
                i <= all.len(),
                tv == transitions_view(all@),
                forall|i0: int, j0: int|
                    nonce_in_range(tv, i0, j0) && i0 < i ==> !self.nonce_map().contains_key(
                        #[trigger] nonce_at(tv, i0, j0),
                    ),
                forall|i0: int, j0: int, i1: int, j1: int|
                    #![trigger nonce_at(tv, i0, j0), nonce_at(tv, i1, j1)]
                    nonce_in_range(tv, i0, j0) && nonce_in_range(tv, i1, j1) && (i0 < i1 || (i0 == i1
                        && j0 < j1)) && i1 < i ==> nonce_at(tv, i0, j0) != nonce_at(tv, i1, j1),
                forall|x: u64| #[trigger]
                    seen@.contains_key(x) <==> exists|i0: int, j0: int|
                        nonce_in_range(tv, i0, j0) && i0 < i && #[trigger] nonce_at(tv, i0, j0) == x,
            decreases all.len() - i,
        {
            let t = &all[i];
            proof {
                assert(tv[i as int] == all@[i as int]@);
            }
            let mut j: usize = 0;
            while j < t.nonces.len()
                invariant
                    i < all.len(),
                    j <= t.nonces.len(),
                    tv == transitions_view(all@),
                    t == &all@[i as int],
                    tv[i as int] == all@[i as int]@,
                    forall|i0: int, j0: int|
                        nonce_in_range(tv, i0, j0) && (i0 < i || (i0 == i && j0 < j))
                            ==> !self.nonce_map().contains_key(
                            #[trigger] nonce_at(tv, i0, j0),
                        ),
                    forall|i0: int, j0: int, i1: int, j1: int|
                        #![trigger nonce_at(tv, i0, j0), nonce_at(tv, i1, j1)]
                        nonce_in_range(tv, i0, j0) && nonce_in_range(tv, i1, j1) && (i0 < i1 || (i0
                            == i1 && j0 < j1)) && (i1 < i || (i1 == i && j1 < j)) ==> nonce_at(
                            tv,
                            i0,
                            j0,
                        ) != nonce_at(tv, i1, j1),
                    forall|x: u64| #[trigger]
                        seen@.contains_key(x) <==> exists|i0: int, j0: int|
                            nonce_in_range(tv, i0, j0) && (i0 < i || (i0 == i && j0 < j))
                                && #[trigger] nonce_at(tv, i0, j0) == x,
                decreases t.nonces.len() - j,
            {
                let key = t.nonces[j];
                proof {
                    assert(nonce_in_range(tv, i as int, j as int));
                    assert(nonce_at(tv, i as int, j as int) == key);
                }
                if self.nonce_map.contains_key(&key) {
                    return false;
                }
                if seen.contains_key(&key) {
                    proof {
                        let (i0, j0): (int, int) = choose|i0: int, j0: int|
                            nonce_in_range(tv, i0, j0) && (i0 < i || (i0 == i && j0 < j))
                                && #[trigger] nonce_at(tv, i0, j0) == key;
                        assert(!(i0 == i && j0 == j));
                        assert(!nonces_distinct(tv));
                    }
                    return false;
                }
                let ghost seen0 = seen@;
                seen.insert(key, ());
                proof {
                    assert forall|x: u64| #[trigger] seen@.contains_key(x) implies exists|
                        i0: int,
                        j0: int,
                    |
                        nonce_in_range(tv, i0, j0) && (i0 < i || (i0 == i && j0 < j + 1))
                            && #[trigger] nonce_at(tv, i0, j0) == x by {
                        if x == key {
                            assert(nonce_at(tv, i as int, j as int) == x);
                        } else {
                            assert(seen0.contains_key(x));
                        }
                    }
                    assert forall|i0: int, j0: int, i1: int, j1: int|
                        #![trigger nonce_at(tv, i0, j0), nonce_at(tv, i1, j1)]
                        nonce_in_range(tv, i0, j0) && nonce_in_range(tv, i1, j1) && (i0 < i1 || (i0
                            == i1 && j0 < j1)) && (i1 < i || (i1 == i && j1 < j + 1)) implies
                        nonce_at(tv, i0, j0) != nonce_at(tv, i1, j1) by {
                        if i1 == i && j1 == j {
                            assert(!seen0.contains_key(key));
                            if nonce_at(tv, i0, j0) == key {
                                assert(seen0.contains_key(nonce_at(tv, i0, j0)));
                            }
                        }
                    }
                }
                j = j + 1;
            }
            proof {
                assert forall|x: u64| #[trigger] seen@.contains_key(x) implies exists|
                    i0: int,
                    j0: int,
                |
                    nonce_in_range(tv, i0, j0) && i0 < i + 1 && #[trigger] nonce_at(tv, i0, j0)
                        == x by {
                    let (i0, j0): (int, int) = choose|i0: int, j0: int|
                        nonce_in_range(tv, i0, j0) && (i0 < i || (i0 == i && j0
                            < t.nonces@.len())) && #[trigger] nonce_at(tv, i0, j0) == x;
                    assert(nonce_in_range(tv, i0, j0) && i0 < i + 1 && nonce_at(tv, i0, j0) == x);
                }
                assert forall|x: u64|
                    (exists|i0: int, j0: int|
                        nonce_in_range(tv, i0, j0) && i0 < i + 1 && #[trigger] nonce_at(tv, i0, j0)
                            == x) implies #[trigger] seen@.contains_key(x) by {
                    let (i0, j0): (int, int) = choose|i0: int, j0: int|
                        nonce_in_range(tv, i0, j0) && i0 < i + 1 && #[trigger] nonce_at(tv, i0, j0)
                            == x;
                    assert(nonce_in_range(tv, i0, j0) && (i0 < i || (i0 == i && j0
                        < t.nonces@.len())) && nonce_at(tv, i0, j0) == x);
                }
            }
            i = i + 1;
        }
        proof {
            assert(tv.len() == all@.len());
            assert forall|i0: int, j0: int, i1: int, j1: int|
                #![trigger nonce_at(tv, i0, j0), nonce_at(tv, i1, j1)]
                nonce_in_range(tv, i0, j0) && nonce_in_range(tv, i1, j1) && !(i0 == i1 && j0 == j1)
                    implies nonce_at(tv, i0, j0) != nonce_at(tv, i1, j1) by {
                if i0 < i1 || (i0 == i1 && j0 < j1) {
                } else {
                }
            }
            assert(nonces_distinct(tv));
            assert(nonces_fresh(*self, tv));
        }
        true
    }
}

impl LedgerStore {
    /// The relation between the store before and after a successful
    /// insert of `txv`: the transaction is indexed under its type record,
    /// a deployment extends the deployment indices, an execution extends
    /// the transition map and every uniqueness index by exactly the
    /// bundle's records, and everything else is untouched.
    pub open spec fn inserted_from(self, pre: LedgerStore, txv: TransactionV) -> bool {
        let ts = txv.all_transitions();
        &&& self.id_map().contains_key(txv.spec_id())
        &&& self.id_map()[txv.spec_id()]@ == tx_type_of(txv)
        &&& forall|k: u64|
            pre.id_map().contains_key(k) ==> self.id_map().contains_key(k)
                && self.id_map()[k] == pre.id_map()[k]
        &&& forall|k: u64|
            self.id_map().contains_key(k) ==> k == txv.spec_id() || pre.id_map().contains_key(k)
        &&& match txv {
            TransactionV::Deploy(id, d) => {
                &&& self.reverse_id_map() == pre.reverse_id_map().insert(d.program_id, id)
                &&& self.deployment_map().contains_key(id)
                &&& self.deployment_map()[id]@ == d
                &&& forall|k: u64|
                    pre.deployment_map().contains_key(k) && k != id
                        ==> self.deployment_map().contains_key(k) && self.deployment_map()[k]
                        == pre.deployment_map()[k]
                &&& forall|k: u64|
                    self.deployment_map().contains_key(k) ==> k == id
                        || pre.deployment_map().contains_key(k)
                &&& self.transition_map() == pre.transition_map()
                &&& self.serial_number_map() == pre.serial_number_map()
                &&& self.commitment_map() == pre.commitment_map()
                &&& self.nonce_map() == pre.nonce_map()
                &&& self.tpk_map() == pre.tpk_map()
            },
            TransactionV::Execute(_, _, _) => {
                &&& self.reverse_id_map() == pre.reverse_id_map()
                &&& self.deployment_map() == pre.deployment_map()
                &&& forall|i: int|
                    0 <= i < ts.len() ==> self.transition_map().contains_key(
                        #[trigger] id_at(ts, i),
                    ) && self.transition_map()[id_at(ts, i)]@ == ts[i]
                &&& forall|x: u64|
                    pre.transition_map().contains_key(x) ==> self.transition_map().contains_key(
                        x,
                    ) && self.transition_map()[x] == pre.transition_map()[x]
                &&& forall|x: u64|
                    self.transition_map().contains_key(x) ==> pre.transition_map().contains_key(
                        x,
                    ) || exists|i: int| 0 <= i < ts.len() && #[trigger] id_at(ts, i) == x
                &&& forall|i: int|
                    0 <= i < ts.len() ==> self.tpk_map().contains_key(#[trigger] tpk_at(ts, i))
                &&& forall|x: u64|
                    pre.tpk_map().contains_key(x) ==> self.tpk_map().contains_key(x)
                        && self.tpk_map()[x] == pre.tpk_map()[x]
                &&& forall|x: u64|
                    self.tpk_map().contains_key(x) ==> pre.tpk_map().contains_key(x) || exists|
                        i: int,
                    | 0 <= i < ts.len() && #[trigger] tpk_at(ts, i) == x
                &&& forall|i: int, j: int|
                    sn_in_range(ts, i, j) ==> self.serial_number_map().contains_key(
                        #[trigger] sn_at(ts, i, j),
                    )
                &&& forall|x: u64|
                    pre.serial_number_map().contains_key(x)
                        ==> self.serial_number_map().contains_key(x)
                        && self.serial_number_map()[x] == pre.serial_number_map()[x]
                &&& forall|x: u64|
                    self.serial_number_map().contains_key(x)
                        ==> pre.serial_number_map().contains_key(x) || exists|i: int, j: int|
                        sn_in_range(ts, i, j) && #[trigger] sn_at(ts, i, j) == x
                &&& forall|i: int, j: int|
                    cm_in_range(ts, i, j) ==> self.commitment_map().contains_key(
                        #[trigger] cm_at(ts, i, j),
                    )
                &&& forall|x: u64|
                    pre.commitment_map().contains_key(x) ==> self.commitment_map().contains_key(
                        x,
                    ) && self.commitment_map()[x] == pre.commitment_map()[x]
                &&& forall|x: u64|
                    self.commitment_map().contains_key(x) ==> pre.commitment_map().contains_key(
                        x,
                    ) || exists|i: int, j: int|
                        cm_in_range(ts, i, j) && #[trigger] cm_at(ts, i, j) == x
                &&& forall|i: int, j: int|
                    nonce_in_range(ts, i, j) ==> self.nonce_map().contains_key(
                        #[trigger] nonce_at(ts, i, j),
                    )
                &&& forall|x: u64|
                    pre.nonce_map().contains_key(x) ==> self.nonce_map().contains_key(x)
                        && self.nonce_map()[x] == pre.nonce_map()[x]
                &&& forall|x: u64|
                    self.nonce_map().contains_key(x) ==> pre.nonce_map().contains_key(x)
                        || exists|i: int, j: int|
                        nonce_in_range(ts, i, j) && #[trigger] nonce_at(ts, i, j) == x
            },
        }
    }

    /// Inserts a transaction: validates global uniqueness, deployment key
    /// coverage and origin resolution first, then commits every derived
    /// index mutation as one atomic unit. A rejected transaction leaves
    /// every index untouched.
    #[verifier::loop_isolation(false)]
    #[verifier::rlimit(100)]
    pub fn insert(&mut self, transaction: Transaction) -> (r: Result<(), StateError>)
        ensures
            match r {
                Ok(()) => insert_check(*old(self), transaction@) is None
                    && final(self).inserted_from(*old(self), transaction@),
                Err(e) => insert_check(*old(self), transaction@) == Some(e) && *final(self)
                    == *old(self),
            },
    {
        let ghost txv = transaction@;
        match transaction {
            Transaction::Deploy(id, deployment) => {
                if self.id_map.contains_key(&id) {
                    return Err(StateError::DuplicateKey);
                }
                if self.reverse_id_map.contains_key(&deployment.program_id) {
                    return Err(StateError::DuplicateKey);
                }
                if !deployment_keys_ok(&deployment) {
                    return Err(StateError::MissingReference);
                }
                let pid = deployment.program_id;
                self.id_map.insert(id, TransactionType::Deploy(pid));
                self.reverse_id_map.insert(pid, id);
                self.deployment_map.insert(id, deployment);
                Ok(())
            },
            Transaction::Execute(id, transitions, fee) => {
                if self.id_map.contains_key(&id) {
                    return Err(StateError::DuplicateKey);
                }
                let ghost pre = *self;
                let has_fee = matches!(&fee, Some(_));
                let mut all = transitions;
                match fee {
                    Some(f) => all.push(f),
                    None => {},
                }
                let ghost tsv = transitions_view(all@);
                proof {
                    assert(tsv =~= txv.all_transitions());
                }
                if !self.ids_tpks_check(&all) {
                    return Err(StateError::DuplicateKey);
                }
                if !self.serial_numbers_check(&all) {
                    return Err(StateError::DuplicateKey);
                }
                if !self.commitments_check(&all) {
                    return Err(StateError::DuplicateKey);
                }
                if !self.nonces_check(&all) {
                    return Err(StateError::DuplicateKey);
                }
                if !origins_supported_check(&all) {
                    return Err(StateError::UnsupportedOrigin);
                }
                if !self.origins_resolve_check(&all) {
                    return Err(StateError::MissingReference);
                }
                proof {
                    assert(keys_admissible(pre, tsv));
                    assert(insert_check(pre, txv) is None);
                }
                // Commit: first the ID map record, then every transition.
                let n_main = if has_fee {
                    all.len() - 1
                } else {
                    all.len()
                };
                let mut tids: Vec<u64> = Vec::new();
                let mut k: usize = 0;
                while k < n_main
                    invariant
                        k <= n_main,
                        tids@.len() == k,
                        forall|k0: int| 0 <= k0 < k ==> tids@[k0] == id_at(tsv, k0),
                    decreases n_main - k,
                {
                    tids.push(all[k].id);
                    proof {
                        assert(id_at(tsv, k as int) == all@[k as int].id);
                    }
                    k = k + 1;
                }
                let fee_id: Option<u64> = if has_fee {
                    Some(all[all.len() - 1].id)
                } else {
                    None
                };
                let record = TransactionType::Execute(tids, fee_id);
                proof {
                    assert(n_main == txv->Execute_1.len());
                    assert forall|k0: int| 0 <= k0 < n_main implies tids@[k0] == tx_type_of(
                        txv,
                    )->Execute_0[k0] by {
                        assert(tids@[k0] == id_at(tsv, k0));
                        assert(tsv[k0] == txv->Execute_1[k0]);
                    }
                    assert(record@->Execute_0 =~= tx_type_of(txv)->Execute_0);
                    assert(record@->Execute_1 == tx_type_of(txv)->Execute_1);
                    assert(record@ == tx_type_of(txv));
                }
                self.id_map.insert(id, record);
                let ghost mid = *self;
                let ghost full = all@;
                proof {
                    assert(full.subrange(0, full.len() as int) =~= full);
                    assert(tsv == transitions_view(full));
                    assert(tsv.len() == full.len());
                }
                while all.len() > 0
                    invariant
                        all@.len() <= full.len(),
                        all@ == full.subrange(0, all@.len() as int),
                        self.id_map() == mid.id_map(),
                        self.reverse_id_map() == pre.reverse_id_map(),
                        self.deployment_map() == pre.deployment_map(),
                        forall|i: int|
                            all@.len() <= i < tsv.len() ==> self.transition_map().contains_key(
                                #[trigger] id_at(tsv, i),
                            ) && self.transition_map()[id_at(tsv, i)]@ == tsv[i],
                        forall|x: u64|
                            #[trigger] pre.transition_map().contains_key(x)
                                ==> self.transition_map().contains_key(x)
                                && self.transition_map()[x] == pre.transition_map()[x],
                        forall|x: u64|
                            #[trigger] self.transition_map().contains_key(x)
                                ==> pre.transition_map().contains_key(x) || exists|i: int|
                                all@.len() <= i < tsv.len() && #[trigger] id_at(tsv, i) == x,
                        forall|i: int|
                            all@.len() <= i < tsv.len() ==> self.tpk_map().contains_key(
                                #[trigger] tpk_at(tsv, i),
                            ),
                        forall|x: u64|
                            #[trigger] pre.tpk_map().contains_key(x)
                                ==> self.tpk_map().contains_key(x)
                                && self.tpk_map()[x] == pre.tpk_map()[x],
                        forall|x: u64|
                            #[trigger] self.tpk_map().contains_key(x)
                                ==> pre.tpk_map().contains_key(x) || exists|i: int|
                                all@.len() <= i < tsv.len() && #[trigger] tpk_at(tsv, i) == x,
                        forall|i: int, j: int|
                            sn_in_range(tsv, i, j) && i >= all@.len()
                                ==> self.serial_number_map().contains_key(
                                #[trigger] sn_at(tsv, i, j),
                            ),
                        forall|x: u64|
                            #[trigger] pre.serial_number_map().contains_key(x)
                                ==> self.serial_number_map().contains_key(x)
                                && self.serial_number_map()[x] == pre.serial_number_map()[x],
                        forall|x: u64|
                            #[trigger] self.serial_number_map().contains_key(x)
                                ==> pre.serial_number_map().contains_key(x) || exists|
                                i: int,
                                j: int,
                            |
                                sn_in_range(tsv, i, j) && i >= all@.len() && #[trigger] sn_at(
                                    tsv,
                                    i,
                                    j,
                                ) == x,
                        forall|i: int, j: int|
                            cm_in_range(tsv, i, j) && i >= all@.len()
                                ==> self.commitment_map().contains_key(
                                #[trigger] cm_at(tsv, i, j),
                            ),
                        forall|x: u64|
                            #[trigger] pre.commitment_map().contains_key(x)
                                ==> self.commitment_map().contains_key(x)
                                && self.commitment_map()[x] == pre.commitment_map()[x],
                        forall|x: u64|
                            #[trigger] self.commitment_map().contains_key(x)
                                ==> pre.commitment_map().contains_key(x) || exists|
                                i: int,
                                j: int,
                            |
                                cm_in_range(tsv, i, j) && i >= all@.len() && #[trigger] cm_at(
                                    tsv,
                                    i,
                                    j,
                                ) == x,
                        forall|i: int, j: int|
                            nonce_in_range(tsv, i, j) && i >= all@.len()
                                ==> self.nonce_map().contains_key(
                                #[trigger] nonce_at(tsv, i, j),
                            ),
                        forall|x: u64|
                            #[trigger] pre.nonce_map().contains_key(x)
                                ==> self.nonce_map().contains_key(x)
                                && self.nonce_map()[x] == pre.nonce_map()[x],
                        forall|x: u64|
                            #[trigger] self.nonce_map().contains_key(x)
                                ==> pre.nonce_map().contains_key(x) || exists|i: int, j: int|
                                nonce_in_range(tsv, i, j) && i >= all@.len()
                                    && #[trigger] nonce_at(tsv, i, j) == x,
                    decreases all.len(),
                {
                    let ghost k_pos = all@.len() - 1;
                    proof {
                        assert(all@ == full.subrange(0, all@.len() as int));
                        assert(tsv.len() == full.len());
                        assert(0 <= k_pos < all@.len());
                        assert(all@.len() <= full.len());
                        assert(all@[k_pos] == full[k_pos]);
                    }
                    let t = match all.pop() {
                        Some(t) => t,
                        None => {
                            proof {
                                assert(false);
                            }
                            return Err(StateError::DuplicateKey);
                        },
                    };
                    proof {
                        assert(t == full[k_pos]);
                        assert(t@ == tsv[k_pos]);
                        assert(all@ =~= full.subrange(0, all@.len() as int));
                    }
                    let ghost entry = *self;
                    let mut j: usize = 0;
                    while j < t.serial_numbers.len()
                        invariant
                            j <= t.serial_numbers.len(),
                            self.id_map() == entry.id_map(),
                            self.reverse_id_map() == entry.reverse_id_map(),
                            self.deployment_map() == entry.deployment_map(),
                            self.transition_map() == entry.transition_map(),
                            self.tpk_map() == entry.tpk_map(),
                            self.commitment_map() == entry.commitment_map(),
                            self.nonce_map() == entry.nonce_map(),
                            forall|j0: int|
                                0 <= j0 < j ==> self.serial_number_map().contains_key(
                                    #[trigger] sn_at(tsv, k_pos, j0),
                                ),
                            forall|x: u64|
                                #[trigger] entry.serial_number_map().contains_key(x)
                                    ==> self.serial_number_map().contains_key(x)
                                    && self.serial_number_map()[x]
                                    == entry.serial_number_map()[x],
                            forall|x: u64|
                                #[trigger] self.serial_number_map().contains_key(x)
                                    ==> entry.serial_number_map().contains_key(x) || exists|
                                    j0: int,
                                |
                                    0 <= j0 < j && #[trigger] sn_at(tsv, k_pos, j0) == x,
                        decreases t.serial_numbers.len() - j,
                    {
                        proof {
                            assert(sn_in_range(tsv, k_pos, j as int));
                            assert(sn_at(tsv, k_pos, j as int) == t.serial_numbers@[j as int]);
                            assert(!pre.serial_number_map().contains_key(
                                sn_at(tsv, k_pos, j as int),
                            ));
                            assert(!entry.serial_number_map().contains_key(
                                sn_at(tsv, k_pos, j as int),
                            )) by {
                                if entry.serial_number_map().contains_key(
                                    sn_at(tsv, k_pos, j as int),
                                ) {
                                    let (i0, j0): (int, int) = choose|i0: int, j0: int|
                                        sn_in_range(tsv, i0, j0) && i0 >= k_pos + 1
                                            && #[trigger] sn_at(tsv, i0, j0) == sn_at(
                                            tsv,
                                            k_pos,
                                            j as int,
                                        );
                                    assert(false);
                                }
                            }
                        }
                        let ghost before = *self;
                        self.serial_number_map.insert(t.serial_numbers[j], t.id);
                        proof {
                            assert forall|x: u64| #[trigger]
                                self.serial_number_map().contains_key(x)
                                    implies entry.serial_number_map().contains_key(x) || exists|
                                    j0: int,
                                |
                                    0 <= j0 < j + 1 && #[trigger] sn_at(tsv, k_pos, j0)
                                        == x by {
                                if x == sn_at(tsv, k_pos, j as int) {
                                    assert(0 <= (j as int) && (j as int) < j + 1 && sn_at(
                                        tsv,
                                        k_pos,
                                        j as int,
                                    ) == x);
                                } else {
                                    if !entry.serial_number_map().contains_key(x) {
                                        assert(before.serial_number_map().contains_key(x));
                                        let j0 = choose|j0: int|
                                            0 <= j0 < j && #[trigger] sn_at(tsv, k_pos, j0) == x;
                                        assert(0 <= j0 && j0 < j + 1 && sn_at(tsv, k_pos, j0)
                                            == x);
                                    }
                                }
                            }
                        }
                        j = j + 1;
                    }
                    let ghost after_sn = *self;
                    let mut j: usize = 0;
                    while j < t.commitments.len()
                        invariant
                            j <= t.commitments.len(),
                            self.id_map() == after_sn.id_map(),
                            self.reverse_id_map() == after_sn.reverse_id_map(),
                            self.deployment_map() == after_sn.deployment_map(),
                            self.transition_map() == after_sn.transition_map(),
                            self.tpk_map() == after_sn.tpk_map(),
                            self.serial_number_map() == after_sn.serial_number_map(),
                            self.nonce_map() == after_sn.nonce_map(),
                            forall|j0: int|
                                0 <= j0 < j ==> self.commitment_map().contains_key(
                                    #[trigger] cm_at(tsv, k_pos, j0),
                                ),
                            forall|x: u64|
                                #[trigger] after_sn.commitment_map().contains_key(x)
                                    ==> self.commitment_map().contains_key(x)
                                    && self.commitment_map()[x] == after_sn.commitment_map()[x],
                            forall|x: u64|
                                #[trigger] self.commitment_map().contains_key(x)
                                    ==> after_sn.commitment_map().contains_key(x) || exists|
                                    j0: int,
                                |
                                    0 <= j0 < j && #[trigger] cm_at(tsv, k_pos, j0) == x,
                        decreases t.commitments.len() - j,
                    {
                        proof {
                            assert(cm_in_range(tsv, k_pos, j as int));
                            assert(cm_at(tsv, k_pos, j as int) == t.commitments@[j as int]);
                            assert(!pre.commitment_map().contains_key(
                                cm_at(tsv, k_pos, j as int),
                            ));
                            assert(!after_sn.commitment_map().contains_key(
                                cm_at(tsv, k_pos, j as int),
                            )) by {
                                if after_sn.commitment_map().contains_key(
                                    cm_at(tsv, k_pos, j as int),
                                ) {
                                    let (i0, j0): (int, int) = choose|i0: int, j0: int|
                                        cm_in_range(tsv, i0, j0) && i0 >= k_pos + 1
                                            && #[trigger] cm_at(tsv, i0, j0) == cm_at(
                                            tsv,
                                            k_pos,
                                            j as int,
                                        );
                                    assert(false);
                                }
                            }
                        }
                        let ghost before = *self;
                        self.commitment_map.insert(t.commitments[j], t.id);
                        proof {
                            assert forall|x: u64| #[trigger]
                                self.commitment_map().contains_key(x)
                                    implies after_sn.commitment_map().contains_key(x) || exists|
                                    j0: int,
                                |
                                    0 <= j0 < j + 1 && #[trigger] cm_at(tsv, k_pos, j0)
                                        == x by {
                                if x == cm_at(tsv, k_pos, j as int) {
                                    assert(0 <= (j as int) && (j as int) < j + 1 && cm_at(
                                        tsv,
                                        k_pos,
                                        j as int,
                                    ) == x);
                                } else {
                                    if !after_sn.commitment_map().contains_key(x) {
                                        assert(before.commitment_map().contains_key(x));
                                        let j0 = choose|j0: int|
                                            0 <= j0 < j && #[trigger] cm_at(tsv, k_pos, j0) == x;
                                        assert(0 <= j0 && j0 < j + 1 && cm_at(tsv, k_pos, j0)
                                            == x);
                                    }
                                }
                            }
                        }
                        j = j + 1;
                    }
                    let ghost after_cm = *self;
                    let mut j: usize = 0;
                    while j < t.nonces.len()
                        invariant
                            j <= t.nonces.len(),
                            self.id_map() == after_cm.id_map(),
                            self.reverse_id_map() == after_cm.reverse_id_map(),
                            self.deployment_map() == after_cm.deployment_map(),
                            self.transition_map() == after_cm.transition_map(),
                            self.tpk_map() == after_cm.tpk_map(),
                            self.serial_number_map() == after_cm.serial_number_map(),
                            self.commitment_map() == after_cm.commitment_map(),
                            forall|j0: int|
                                0 <= j0 < j ==> self.nonce_map().contains_key(
                                    #[trigger] nonce_at(tsv, k_pos, j0),
                                ),
                            forall|x: u64|
                                #[trigger] after_cm.nonce_map().contains_key(x)
                                    ==> self.nonce_map().contains_key(x)
                                    && self.nonce_map()[x] == after_cm.nonce_map()[x],
                            forall|x: u64|
                                #[trigger] self.nonce_map().contains_key(x)
                                    ==> after_cm.nonce_map().contains_key(x) || exists|j0: int|
                                    0 <= j0 < j && #[trigger] nonce_at(tsv, k_pos, j0) == x,
                        decreases t.nonces.len() - j,
                    {
                        proof {
                            assert(nonce_in_range(tsv, k_pos, j as int));
                            assert(nonce_at(tsv, k_pos, j as int) == t.nonces@[j as int]);
                            assert(!pre.nonce_map().contains_key(
                                nonce_at(tsv, k_pos, j as int),
                            ));
                            assert(!after_cm.nonce_map().contains_key(
                                nonce_at(tsv, k_pos, j as int),
                            )) by {
                                if after_cm.nonce_map().contains_key(
                                    nonce_at(tsv, k_pos, j as int),
                                ) {
                                    let (i0, j0): (int, int) = choose|i0: int, j0: int|
                                        nonce_in_range(tsv, i0, j0) && i0 >= k_pos + 1
                                            && #[trigger] nonce_at(tsv, i0, j0) == nonce_at(
                                            tsv,
                                            k_pos,
                                            j as int,
                                        );
                                    assert(false);
                                }
                            }
                        }
                        let ghost before = *self;
                        self.nonce_map.insert(t.nonces[j], t.id);
                        proof {
                            assert forall|x: u64| #[trigger] self.nonce_map().contains_key(x)
                                implies after_cm.nonce_map().contains_key(x) || exists|j0: int|
                                0 <= j0 < j + 1 && #[trigger] nonce_at(tsv, k_pos, j0) == x by {
                                if x == nonce_at(tsv, k_pos, j as int) {
                                    assert(0 <= (j as int) && (j as int) < j + 1 && nonce_at(
                                        tsv,
                                        k_pos,
                                        j as int,
                                    ) == x);
                                } else {
                                    if !after_cm.nonce_map().contains_key(x) {
                                        assert(before.nonce_map().contains_key(x));
                                        let j0 = choose|j0: int|
                                            0 <= j0 < j && #[trigger] nonce_at(tsv, k_pos, j0) == x;
                                        assert(0 <= j0 && j0 < j + 1 && nonce_at(tsv, k_pos, j0)
                                            == x);
                                    }
                                }
                            }
                        }
                        j = j + 1;
                    }
                    let ghost done_keys = *self;
                    self.tpk_map.insert(t.tpk, t.id);
                    proof {
                        assert(tpk_at(tsv, k_pos) == t.tpk);
                    }
                    let ghost tid = t.id;
                    self.transition_map.insert(t.id, t);
                    proof {
                        let kp = k_pos;
                        assert(id_at(tsv, kp) == tid);
                        assert(self.transition_map()[id_at(tsv, kp)]@ == tsv[kp]);
                        assert(0 <= kp < tsv.len());
                        assert(!pre.transition_map().contains_key(id_at(tsv, kp)));
                        assert(!pre.tpk_map().contains_key(tpk_at(tsv, kp)));
                        assert forall|i: int|
                            kp <= i < tsv.len() implies self.transition_map().contains_key(
                            #[trigger] id_at(tsv, i),
                        ) && self.transition_map()[id_at(tsv, i)]@ == tsv[i] by {
                            if i != kp {
                                assert(id_at(tsv, i) != id_at(tsv, kp));
                            }
                        }
                        assert forall|x: u64|
                            pre.transition_map().contains_key(x)
                                implies self.transition_map().contains_key(x)
                                && self.transition_map()[x] == pre.transition_map()[x] by {
                            assert(entry.transition_map().contains_key(x)
                                && entry.transition_map()[x] == pre.transition_map()[x]);
                            assert(x != id_at(tsv, kp));
                        }
                        assert forall|x: u64|
                            self.transition_map().contains_key(x)
                                implies pre.transition_map().contains_key(x) || exists|i: int|
                                kp <= i < tsv.len() && #[trigger] id_at(tsv, i) == x by {
                            if x == tid {
                                assert(id_at(tsv, kp) == x);
                            } else {
                                if !pre.transition_map().contains_key(x) {
                                    let i0 = choose|i0: int|
                                        kp + 1 <= i0 < tsv.len() && #[trigger] id_at(tsv, i0)
                                            == x;
                                    assert(kp <= i0 < tsv.len() && id_at(tsv, i0) == x);
                                }
                            }
                        }
                        assert forall|i: int|
                            kp <= i < tsv.len() implies self.tpk_map().contains_key(
                            #[trigger] tpk_at(tsv, i),
                        ) by {
                            if i != kp {
                                assert(tpk_at(tsv, i) != tpk_at(tsv, kp));
                            }
                        }
                        assert forall|x: u64|
                            pre.tpk_map().contains_key(x) implies self.tpk_map().contains_key(x)
                                && self.tpk_map()[x] == pre.tpk_map()[x] by {
                            assert(entry.tpk_map().contains_key(x) && entry.tpk_map()[x]
                                == pre.tpk_map()[x]);
                            assert(x != tpk_at(tsv, kp));
                        }
                        assert forall|x: u64|
                            self.tpk_map().contains_key(x) implies pre.tpk_map().contains_key(x)
                                || exists|i: int|
                                kp <= i < tsv.len() && #[trigger] tpk_at(tsv, i) == x by {
                            if x == tpk_at(tsv, kp) {
                                assert(tpk_at(tsv, kp) == x);
                            } else {
                                if !pre.tpk_map().contains_key(x) {
                                    let i0 = choose|i0: int|
                                        kp + 1 <= i0 < tsv.len() && #[trigger] tpk_at(tsv, i0)
                                            == x;
                                    assert(kp <= i0 < tsv.len() && tpk_at(tsv, i0) == x);
                                }
                            }
                        }
                        assert(tsv[kp].serial_numbers.len() == t.serial_numbers@.len());
                        assert forall|i: int, j: int|
                            sn_in_range(tsv, i, j) && i >= kp
                                implies self.serial_number_map().contains_key(
                                #[trigger] sn_at(tsv, i, j),
                            ) by {}
                        assert forall|x: u64|
                            pre.serial_number_map().contains_key(x)
                                implies self.serial_number_map().contains_key(x)
                                && self.serial_number_map()[x] == pre.serial_number_map()[x]
                            by {
                            assert(entry.serial_number_map().contains_key(x)
                                && entry.serial_number_map()[x] == pre.serial_number_map()[x]);
                        }
                        assert forall|x: u64|
                            self.serial_number_map().contains_key(x)
                                implies pre.serial_number_map().contains_key(x) || exists|
                                i: int,
                                j: int,
                            |
                                sn_in_range(tsv, i, j) && i >= kp && #[trigger] sn_at(tsv, i, j)
                                    == x by {
                            if !pre.serial_number_map().contains_key(x) {
                                if exists|j0: int|
                                    0 <= j0 < tsv[kp].serial_numbers.len() && #[trigger] sn_at(
                                        tsv,
                                        kp,
                                        j0,
                                    ) == x {
                                    let j0 = choose|j0: int|
                                        0 <= j0 < tsv[kp].serial_numbers.len()
                                            && #[trigger] sn_at(tsv, kp, j0) == x;
                                    assert(sn_in_range(tsv, kp, j0) && kp >= kp && sn_at(
                                        tsv,
                                        kp,
                                        j0,
                                    ) == x);
                                } else {
                                    assert(entry.serial_number_map().contains_key(x));
                                    let (i0, j0): (int, int) = choose|i0: int, j0: int|
                                        sn_in_range(tsv, i0, j0) && i0 >= kp + 1
                                            && #[trigger] sn_at(tsv, i0, j0) == x;
                                    assert(sn_in_range(tsv, i0, j0) && i0 >= kp && sn_at(
                                        tsv,
                                        i0,
                                        j0,
                                    ) == x);
                                }
                            }
                        }
                        assert(tsv[kp].commitments.len() == t.commitments@.len());
                        assert forall|i: int, j: int|
                            cm_in_range(tsv, i, j) && i >= kp
                                implies self.commitment_map().contains_key(
                                #[trigger] cm_at(tsv, i, j),
                            ) by {}
                        assert forall|x: u64|
                            pre.commitment_map().contains_key(x)
                                implies self.commitment_map().contains_key(x)
                                && self.commitment_map()[x] == pre.commitment_map()[x] by {
                            assert(entry.commitment_map().contains_key(x)
                                && entry.commitment_map()[x] == pre.commitment_map()[x]);
                            assert(after_sn.commitment_map() == entry.commitment_map());
                        }
                        assert forall|x: u64|
                            self.commitment_map().contains_key(x)
                                implies pre.commitment_map().contains_key(x) || exists|
                                i: int,
                                j: int,
                            |
                                cm_in_range(tsv, i, j) && i >= kp && #[trigger] cm_at(tsv, i, j)
                                    == x by {
                            if !pre.commitment_map().contains_key(x) {
                                if exists|j0: int|
                                    0 <= j0 < tsv[kp].commitments.len() && #[trigger] cm_at(
                                        tsv,
                                        kp,
                                        j0,
                                    ) == x {
                                    let j0 = choose|j0: int|
                                        0 <= j0 < tsv[kp].commitments.len() && #[trigger] cm_at(
                                            tsv,
                                            kp,
                                            j0,
                                        ) == x;
                                    assert(cm_in_range(tsv, kp, j0) && kp >= kp && cm_at(
                                        tsv,
                                        kp,
                                        j0,
                                    ) == x);
                                } else {
                                    assert(entry.commitment_map().contains_key(x));
                                    let (i0, j0): (int, int) = choose|i0: int, j0: int|
                                        cm_in_range(tsv, i0, j0) && i0 >= kp + 1
                                            && #[trigger] cm_at(tsv, i0, j0) == x;
                                    assert(cm_in_range(tsv, i0, j0) && i0 >= kp && cm_at(
                                        tsv,
                                        i0,
                                        j0,
                                    ) == x);
                                }
                            }
                        }
                        assert(tsv[kp].nonces.len() == t.nonces@.len());
                        assert forall|i: int, j: int|
                            nonce_in_range(tsv, i, j) && i >= kp
                                implies self.nonce_map().contains_key(
                                #[trigger] nonce_at(tsv, i, j),
                            ) by {}
                        assert forall|x: u64|
                            pre.nonce_map().contains_key(x)
                                implies self.nonce_map().contains_key(x) && self.nonce_map()[x]
                                == pre.nonce_map()[x] by {
                            assert(entry.nonce_map().contains_key(x) && entry.nonce_map()[x]
                                == pre.nonce_map()[x]);
                            assert(after_cm.nonce_map() == after_sn.nonce_map());
                        }
                        assert forall|x: u64|
                            self.nonce_map().contains_key(x)
                                implies pre.nonce_map().contains_key(x) || exists|
                                i: int,
                                j: int,
                            |
                                nonce_in_range(tsv, i, j) && i >= kp && #[trigger] nonce_at(
                                    tsv,
                                    i,
                                    j,
                                ) == x by {
                            if !pre.nonce_map().contains_key(x) {
                                if exists|j0: int|
                                    0 <= j0 < tsv[kp].nonces.len() && #[trigger] nonce_at(
                                        tsv,
                                        kp,
                                        j0,
                                    ) == x {
                                    let j0 = choose|j0: int|
                                        0 <= j0 < tsv[kp].nonces.len() && #[trigger] nonce_at(
                                            tsv,
                                            kp,
                                            j0,
                                        ) == x;
                                    assert(nonce_in_range(tsv, kp, j0) && kp >= kp && nonce_at(
                                        tsv,
                                        kp,
                                        j0,
                                    ) == x);
                                } else {
                                    assert(self.nonce_map() == done_keys.nonce_map());
                                    assert(done_keys.nonce_map().contains_key(x));
                                    assert(after_cm.nonce_map().contains_key(x));
                                    assert(after_cm.nonce_map() == entry.nonce_map());
                                    assert(entry.nonce_map().contains_key(x));
                                    let (i0, j0): (int, int) = choose|i0: int, j0: int|
                                        nonce_in_range(tsv, i0, j0) && i0 >= kp + 1
                                            && #[trigger] nonce_at(tsv, i0, j0) == x;
                                    assert(nonce_in_range(tsv, i0, j0) && i0 >= kp && nonce_at(
                                        tsv,
                                        i0,
                                        j0,
                                    ) == x);
                                }
                            }
                        }
                    }
                }
                Ok(())
            },
        }
    }
}

/// Copies a list of keys.
fn copy_u64s(v: &Vec<u64>) -> (r: Vec<u64>)
    ensures
        r@ == v@,
{
    let mut out: Vec<u64> = Vec::new();
    let mut i: usize = 0;
    while i < v.len()
        invariant
            i <= v.len(),
            out@ == v@.subrange(0, i as int),
        decreases v.len() - i,
    {
        out.push(v[i]);
        proof {
            assert(v@.subrange(0, i + 1 as int) =~= v@.subrange(0, i as int).push(v@[i as int]));
        }
        i = i + 1;
    }
    proof {
        assert(v@.subrange(0, v@.len() as int) =~= v@);
    }
    out
}

/// Copies a list of origins.
fn copy_origins(v: &Vec<Origin>) -> (r: Vec<Origin>)
    ensures
        r@ == v@,
{
    let mut out: Vec<Origin> = Vec::new();
    let mut i: usize = 0;
    while i < v.len()
        invariant
            i <= v.len(),
            out@ == v@.subrange(0, i as int),
        decreases v.len() - i,
    {
        out.push(v[i]);
        proof {
            assert(v@.subrange(0, i + 1 as int) =~= v@.subrange(0, i as int).push(v@[i as int]));
        }
        i = i + 1;
    }
    proof {
        assert(v@.subrange(0, v@.len() as int) =~= v@);
    }
    out
}

/// Copies a list of (function name, key) pairs.
fn copy_pairs(v: &Vec<(u64, u64)>) -> (r: Vec<(u64, u64)>)
    ensures
        r@ == v@,
{
    let mut out: Vec<(u64, u64)> = Vec::new();
    let mut i: usize = 0;
    while i < v.len()
        invariant
            i <= v.len(),
            out@ == v@.subrange(0, i as int),
        decreases v.len() - i,
    {
        out.push((v[i].0, v[i].1));
        proof {
            assert((v@[i as int].0, v@[i as int].1) == v@[i as int]);
            assert(v@.subrange(0, i + 1 as int) =~= v@.subrange(0, i as int).push(v@[i as int]));
        }
        i = i + 1;
    }
    proof {
        assert(v@.subrange(0, v@.len() as int) =~= v@);
    }
    out
}

/// Rebuilds a transition record with the same content.
fn clone_transition(t: &Transition) -> (r: Transition)
    ensures
        r@ == t@,
{
    Transition {
        id: t.id,
        tpk: t.tpk,
        serial_numbers: copy_u64s(&t.serial_numbers),
        commitments: copy_u64s(&t.commitments),
        nonces: copy_u64s(&t.nonces),
        origins: copy_origins(&t.origins),
    }
}

/// Rebuilds a deployment record with the same content.
fn clone_deployment(d: &Deployment) -> (r: Deployment)
    ensures
        r@ == d@,
{
    Deployment {
        program_id: d.program_id,
        functions: copy_u64s(&d.functions),
        verifying_keys: copy_pairs(&d.verifying_keys),
    }
}

impl LedgerStore {
    /// Every record needed to rebuild the transaction is indexed.
    pub open spec fn can_reconstruct(self, id: u64) -> bool {
        &&& self.id_map().contains_key(id)
        &&& match self.id_map()[id]@ {
            TransactionTypeV::Deploy(_pid) => self.deployment_map().contains_key(id),
            TransactionTypeV::Execute(tids, fee) => {
                &&& forall|i: int|
                    0 <= i < tids.len() ==> self.transition_map().contains_key(#[trigger] tids[i])
                &&& match fee {
                    Some(f) => self.transition_map().contains_key(f),
                    None => true,
                }
            },
        }
    }

    /// The transaction rebuilt by joining the type record with its child
    /// records.
    pub open spec fn reconstructed(self, id: u64) -> TransactionV {
        match self.id_map()[id]@ {
            TransactionTypeV::Deploy(_pid) => TransactionV::Deploy(
                id,
                self.deployment_map()[id]@,
            ),
            TransactionTypeV::Execute(tids, fee) => TransactionV::Execute(
                id,
                Seq::new(tids.len(), |i: int| self.transition_map()[tids[i]]@),
                match fee {
                    Some(f) => Some(self.transition_map()[f]@),
                    None => None,
                },
            ),
        }
    }

    /// Reconstructs a full transaction by joining the authoritative
    /// record with its child transitions. An unindexed ID is
    /// `UnknownTransaction`; an indexed transaction with a dangling child
    /// reference signals storage corruption as `MissingReference`.
    #[verifier::loop_isolation(false)]
    pub fn get_transaction(&self, id: u64) -> (r: Result<Transaction, StateError>)
        ensures
            r is Ok <==> self.can_reconstruct(id),
            r is Ok ==> r.unwrap()@ == self.reconstructed(id),
            r == Err::<Transaction, StateError>(StateError::UnknownTransaction)
                <==> !self.id_map().contains_key(id),
            r == Err::<Transaction, StateError>(StateError::MissingReference)
                <==> self.id_map().contains_key(id) && !self.can_reconstruct(id),
    {
        let record = match self.id_map.get(&id) {
            Some(t) => t,
            None => {
                return Err(StateError::UnknownTransaction);
            },
        };
        match record {
            TransactionType::Deploy(_pid) => {
                match self.deployment_map.get(&id) {
                    Some(d) => Ok(Transaction::Deploy(id, clone_deployment(d))),
                    None => Err(StateError::MissingReference),
                }
            },
            TransactionType::Execute(tids, fee) => {
                let ghost tidsv = (self.id_map()[id]@)->Execute_0;
                proof {
                    assert(tidsv == tids@);
                }
                let mut transitions: Vec<Transition> = Vec::new();
                let mut i: usize = 0;
                while i < tids.len()
                    invariant
                        i <= tids.len(),
                        transitions@.len() == i,
                        forall|k: int|
                            0 <= k < i ==> self.transition_map().contains_key(
                                #[trigger] tidsv[k],
                            ),
                        forall|k: int|
                            0 <= k < i ==> (#[trigger] transitions@[k])@
                                == self.transition_map()[tidsv[k]]@,
                    decreases tids.len() - i,
                {
                    let t = match self.transition_map.get(&tids[i]) {
                        Some(t) => t,
                        None => {
                            return Err(StateError::MissingReference);
                        },
                    };
                    transitions.push(clone_transition(t));
                    i = i + 1;
                }
                let fee_t: Option<Transition> = match fee {
                    Some(fid) => {
                        match self.transition_map.get(fid) {
                            Some(t) => Some(clone_transition(t)),
                            None => {
                                return Err(StateError::MissingReference);
                            },
                        }
                    },
                    None => None,
                };
                let out = Transaction::Execute(id, transitions, fee_t);
                proof {
                    assert(transitions_view(transitions@) =~= Seq::new(
                        tidsv.len(),
                        |k: int| self.transition_map()[tidsv[k]]@,
                    ));
                    assert(out@ == self.reconstructed(id));
                }
                Ok(out)
            },
        }
    }
}

/// Round-trip law: a transaction that commits is rebuilt intact. After a
/// successful insert of `txv` into `pre` yielding `post`, the
/// reconstruction of `txv.spec_id()` from `post` succeeds and yields
/// `txv` itself.
pub proof fn lemma_insert_round_trip(pre: LedgerStore, post: LedgerStore, txv: TransactionV)
    requires
        insert_check(pre, txv) is None,
        post.inserted_from(pre, txv),
    ensures
        post.can_reconstruct(txv.spec_id()),
        post.reconstructed(txv.spec_id()) == txv,
{
    let id = txv.spec_id();
    let ts = txv.all_transitions();
    match txv {
        TransactionV::Deploy(_did, d) => {
            assert(post.id_map()[id]@ == TransactionTypeV::Deploy(d.program_id));
            assert(post.reconstructed(id) == TransactionV::Deploy(id, post.deployment_map()[id]@));
        },
        TransactionV::Execute(_eid, ts0, fee) => {
            let tids = tx_type_of(txv)->Execute_0;
            assert(post.id_map()[id]@ == tx_type_of(txv));
            assert forall|i: int| 0 <= i < tids.len() implies post.transition_map().contains_key(
                #[trigger] tids[i],
            ) by {
                assert(ts[i] == ts0[i]);
                assert(id_at(ts, i) == tids[i]);
            }
            match fee {
                Some(f) => {
                    assert(ts[ts0.len() as int] == f);
                    assert(id_at(ts, ts0.len() as int) == f.id);
                    assert(post.transition_map().contains_key(f.id));
                    assert(post.transition_map()[f.id]@ == f);
                },
                None => {},
            }
            assert(post.can_reconstruct(id));
            let rebuilt = Seq::new(tids.len(), |i: int| post.transition_map()[tids[i]]@);
            assert forall|i: int| 0 <= i < tids.len() implies rebuilt[i] == ts0[i] by {
                assert(ts[i] == ts0[i]);
                assert(id_at(ts, i) == tids[i]);
                assert(post.transition_map()[id_at(ts, i)]@ == ts[i]);
            }
            assert(rebuilt =~= ts0);
            assert(post.reconstructed(id) == txv);
        },
    }
}

/// The transition IDs a stored type record points at, the fee last.
pub open spec fn removal_ids(tyv: TransactionTypeV) -> Seq<u64> {
    match tyv {
        TransactionTypeV::Deploy(_) => Seq::empty(),
        TransactionTypeV::Execute(tids, fee) => match fee {
            Some(f) => tids.push(f),
            None => tids,
        },
    }
}

/// The transition records stored under the given IDs.
pub open spec fn stored_transitions(s: LedgerStore, rids: Seq<u64>) -> Seq<TransitionV> {
    Seq::new(rids.len(), |i: int| s.transition_map()[rids[i]]@)
}

/// The validation verdict for removing `id` from store `s`: an unindexed
/// ID is an `UnknownTransaction`; an execution with a dangling transition
/// reference is a `MissingReference`.
pub open spec fn remove_check(s: LedgerStore, id: u64) -> Option<StateError> {
    if !s.id_map().contains_key(id) {
        Some(StateError::UnknownTransaction)
    } else {
        let rids = removal_ids(s.id_map()[id]@);
        if exists|i: int|
            0 <= i < rids.len() && !s.transition_map().contains_key(#[trigger] rids[i]) {
            Some(StateError::MissingReference)
        } else {
            None
        }
    }
}

impl LedgerStore {
    /// The relation between the store before and after a successful
    /// removal of `id`: the transaction leaves every derived index, the
    /// removed transitions' keys leave every uniqueness index, and
    /// everything else is untouched.
    pub open spec fn removed_from(self, pre: LedgerStore, id: u64) -> bool {
        let tyv = pre.id_map()[id]@;
        let rids = removal_ids(tyv);
        let rts = stored_transitions(pre, rids);
        &&& self.id_map() == pre.id_map().remove(id)
        &&& match tyv {
            TransactionTypeV::Deploy(pid) => {
                &&& self.reverse_id_map() == pre.reverse_id_map().remove(pid)
                &&& self.deployment_map() == pre.deployment_map().remove(id)
                &&& self.transition_map() == pre.transition_map()
                &&& self.serial_number_map() == pre.serial_number_map()
                &&& self.commitment_map() == pre.commitment_map()
                &&& self.nonce_map() == pre.nonce_map()
                &&& self.tpk_map() == pre.tpk_map()
            },
            TransactionTypeV::Execute(_, _) => {
                &&& self.reverse_id_map() == pre.reverse_id_map()
                &&& self.deployment_map() == pre.deployment_map()
                &&& forall|i: int|
                    0 <= i < rids.len() ==> !self.transition_map().contains_key(
                        #[trigger] rids[i],
                    )
                &&& forall|k: u64|
                    #[trigger] pre.transition_map().contains_key(k) && (forall|i: int|
                        0 <= i < rids.len() ==> #[trigger] rids[i] != k)
                        ==> self.transition_map().contains_key(k) && self.transition_map()[k]
                        == pre.transition_map()[k]
                &&& forall|k: u64|
                    #[trigger] self.transition_map().contains_key(k)
                        ==> pre.transition_map().contains_key(k)
                &&& forall|i: int|
                    0 <= i < rts.len() ==> !self.tpk_map().contains_key(#[trigger] tpk_at(rts, i))
                &&& forall|k: u64|
                    #[trigger] pre.tpk_map().contains_key(k) && (forall|i: int|
                        0 <= i < rts.len() ==> #[trigger] tpk_at(rts, i) != k)
                        ==> self.tpk_map().contains_key(k) && self.tpk_map()[k]
                        == pre.tpk_map()[k]
                &&& forall|k: u64|
                    #[trigger] self.tpk_map().contains_key(k) ==> pre.tpk_map().contains_key(k)
                &&& forall|i: int, j: int|
                    sn_in_range(rts, i, j) ==> !self.serial_number_map().contains_key(
                        #[trigger] sn_at(rts, i, j),
                    )
                &&& forall|k: u64|
                    #[trigger] pre.serial_number_map().contains_key(k) && (forall|
                        i: int,
                        j: int,
                    | sn_in_range(rts, i, j) ==> #[trigger] sn_at(rts, i, j) != k)
                        ==> self.serial_number_map().contains_key(k)
                        && self.serial_number_map()[k] == pre.serial_number_map()[k]
                &&& forall|k: u64|
                    #[trigger] self.serial_number_map().contains_key(k)
                        ==> pre.serial_number_map().contains_key(k)
                &&& forall|i: int, j: int|
                    cm_in_range(rts, i, j) ==> !self.commitment_map().contains_key(
                        #[trigger] cm_at(rts, i, j),
                    )
                &&& forall|k: u64|
                    #[trigger] pre.commitment_map().contains_key(k) && (forall|i: int, j: int|
                        cm_in_range(rts, i, j) ==> #[trigger] cm_at(rts, i, j) != k)
                        ==> self.commitment_map().contains_key(k) && self.commitment_map()[k]
                        == pre.commitment_map()[k]
                &&& forall|k: u64|
                    #[trigger] self.commitment_map().contains_key(k)
                        ==> pre.commitment_map().contains_key(k)
                &&& forall|i: int, j: int|
                    nonce_in_range(rts, i, j) ==> !self.nonce_map().contains_key(
                        #[trigger] nonce_at(rts, i, j),
                    )
                &&& forall|k: u64|
                    #[trigger] pre.nonce_map().contains_key(k) && (forall|i: int, j: int|
                        nonce_in_range(rts, i, j) ==> #[trigger] nonce_at(rts, i, j) != k)
                        ==> self.nonce_map().contains_key(k) && self.nonce_map()[k]
                        == pre.nonce_map()[k]
                &&& forall|k: u64|
                    #[trigger] self.nonce_map().contains_key(k)
                        ==> pre.nonce_map().contains_key(k)
            },
        }
    }

    /// Removes a transaction: symmetric deletion from every derived
    /// index, as one atomic unit. A rejected removal leaves every index
    /// untouched.
    #[verifier::loop_isolation(false)]
    #[verifier::rlimit(100)]
    pub fn remove(&mut self, transaction_id: u64) -> (r: Result<(), StateError>)
        ensures
            match r {
                Ok(()) => remove_check(*old(self), transaction_id) is None
                    && final(self).removed_from(*old(self), transaction_id),
                Err(e) => remove_check(*old(self), transaction_id) == Some(e) && *final(self)
                    == *old(self),
            },
    {
        let info: (bool, u64, Vec<u64>) = match self.id_map.get(&transaction_id) {
            None => {
                return Err(StateError::UnknownTransaction);
            },
            Some(record) => match record {
                TransactionType::Deploy(p) => (true, *p, Vec::new()),
                TransactionType::Execute(tids, fee) => {
                    let mut rids = copy_u64s(tids);
                    match fee {
                        Some(f) => rids.push(*f),
                        None => {},
                    }
                    (false, 0u64, rids)
                },
            },
        };
        let ghost tyv = self.id_map()[transaction_id]@;
        if info.0 {
            let pid = info.1;
            self.id_map.remove(&transaction_id);
            self.reverse_id_map.remove(&pid);
            self.deployment_map.remove(&transaction_id);
            return Ok(());
        }
        let rids = info.2;
        proof {
            assert(rids@ =~= removal_ids(tyv));
        }
        let mut i: usize = 0;
        while i < rids.len()
            invariant
                i <= rids.len(),
                forall|i0: int|
                    0 <= i0 < i ==> self.transition_map().contains_key(#[trigger] rids@[i0]),
            decreases rids.len() - i,
        {
            if !self.transition_map.contains_key(&rids[i]) {
                return Err(StateError::MissingReference);
            }
            i = i + 1;
        }
        let ghost pre = *self;
        let ghost ridsv = rids@;
        let ghost rts = stored_transitions(pre, ridsv);
        proof {
            assert(remove_check(pre, transaction_id) is None);
            assert(rts.len() == ridsv.len());
        }
        self.id_map.remove(&transaction_id);
        let mut i: usize = 0;
        while i < rids.len()
            invariant
                i <= rids.len(),
                self.id_map() == pre.id_map().remove(transaction_id),
                self.reverse_id_map() == pre.reverse_id_map(),
                self.deployment_map() == pre.deployment_map(),
                forall|i0: int|
                    0 <= i0 < i ==> !self.transition_map().contains_key(#[trigger] ridsv[i0]),
                forall|k: u64|
                    #[trigger] pre.transition_map().contains_key(k) && (forall|i0: int|
                        0 <= i0 < i ==> #[trigger] ridsv[i0] != k)
                        ==> self.transition_map().contains_key(k) && self.transition_map()[k]
                        == pre.transition_map()[k],
                forall|k: u64|
                    #[trigger] self.transition_map().contains_key(k)
                        ==> pre.transition_map().contains_key(k),
                forall|i0: int|
                    0 <= i0 < i ==> !self.tpk_map().contains_key(#[trigger] tpk_at(rts, i0)),
                forall|k: u64|
                    #[trigger] pre.tpk_map().contains_key(k) && (forall|i0: int|
                        0 <= i0 < i ==> #[trigger] tpk_at(rts, i0) != k)
                        ==> self.tpk_map().contains_key(k) && self.tpk_map()[k]
                        == pre.tpk_map()[k],
                forall|k: u64|
                    #[trigger] self.tpk_map().contains_key(k) ==> pre.tpk_map().contains_key(k),
                forall|i0: int, j: int|
                    sn_in_range(rts, i0, j) && i0 < i ==> !self.serial_number_map().contains_key(
                        #[trigger] sn_at(rts, i0, j),
                    ),
                forall|k: u64|
                    #[trigger] pre.serial_number_map().contains_key(k) && (forall|
                        i0: int,
                        j: int,
                    |
                        sn_in_range(rts, i0, j) && i0 < i ==> #[trigger] sn_at(rts, i0, j) != k)
                        ==> self.serial_number_map().contains_key(k)
                        && self.serial_number_map()[k] == pre.serial_number_map()[k],
                forall|k: u64|
                    #[trigger] self.serial_number_map().contains_key(k)
                        ==> pre.serial_number_map().contains_key(k),
                forall|i0: int, j: int|
                    cm_in_range(rts, i0, j) && i0 < i ==> !self.commitment_map().contains_key(
                        #[trigger] cm_at(rts, i0, j),
                    ),
                forall|k: u64|
                    #[trigger] pre.commitment_map().contains_key(k) && (forall|i0: int, j: int|
                        cm_in_range(rts, i0, j) && i0 < i ==> #[trigger] cm_at(rts, i0, j) != k)
                        ==> self.commitment_map().contains_key(k) && self.commitment_map()[k]
                        == pre.commitment_map()[k],
                forall|k: u64|
                    #[trigger] self.commitment_map().contains_key(k)
                        ==> pre.commitment_map().contains_key(k),
                forall|i0: int, j: int|
                    nonce_in_range(rts, i0, j) && i0 < i ==> !self.nonce_map().contains_key(
                        #[trigger] nonce_at(rts, i0, j),
                    ),
                forall|k: u64|
                    #[trigger] pre.nonce_map().contains_key(k) && (forall|i0: int, j: int|
                        nonce_in_range(rts, i0, j) && i0 < i ==> #[trigger] nonce_at(
                            rts,
                            i0,
                            j,
                        ) != k) ==> self.nonce_map().contains_key(k) && self.nonce_map()[k]
                        == pre.nonce_map()[k],
                forall|k: u64|
                    #[trigger] self.nonce_map().contains_key(k)
                        ==> pre.nonce_map().contains_key(k),
            decreases rids.len() - i,
        {
            let ghost start = *self;
            let removed = self.transition_map.remove(&rids[i]);
            match removed {
                None => {
                    proof {
                        assert(pre.transition_map().contains_key(ridsv[i as int]));
                        assert(!start.transition_map().contains_key(ridsv[i as int]));
                        let i0 = choose|i0: int|
                            0 <= i0 < i && #[trigger] ridsv[i0] == ridsv[i as int];
                        assert(rts[i as int] == rts[i0]);
                        assert(!self.tpk_map().contains_key(tpk_at(rts, i as int))) by {
                            assert(tpk_at(rts, i as int) == tpk_at(rts, i0));
                        }
                        assert forall|j: int|
                            sn_in_range(rts, i as int, j) implies
                            !self.serial_number_map().contains_key(
                            #[trigger] sn_at(rts, i as int, j),
                        ) by {
                            assert(sn_at(rts, i as int, j) == sn_at(rts, i0, j));
                            assert(sn_in_range(rts, i0, j));
                        }
                        assert forall|j: int|
                            cm_in_range(rts, i as int, j) implies
                            !self.commitment_map().contains_key(
                            #[trigger] cm_at(rts, i as int, j),
                        ) by {
                            assert(cm_at(rts, i as int, j) == cm_at(rts, i0, j));
                            assert(cm_in_range(rts, i0, j));
                        }
                        assert forall|j: int|
                            nonce_in_range(rts, i as int, j) implies
                            !self.nonce_map().contains_key(
                            #[trigger] nonce_at(rts, i as int, j),
                        ) by {
                            assert(nonce_at(rts, i as int, j) == nonce_at(rts, i0, j));
                            assert(nonce_in_range(rts, i0, j));
                        }
                        assert(self.serial_number_map() == start.serial_number_map());
                        assert(self.commitment_map() == start.commitment_map());
                        assert(self.nonce_map() == start.nonce_map());
                        assert(self.tpk_map() == start.tpk_map());
                        assert(forall|k: u64|
                            #[trigger] self.tpk_map().contains_key(k)
                                ==> pre.tpk_map().contains_key(k));
                        assert(forall|k: u64|
                            #[trigger] self.serial_number_map().contains_key(k)
                                ==> pre.serial_number_map().contains_key(k));
                        assert(forall|k: u64|
                            #[trigger] self.commitment_map().contains_key(k)
                                ==> pre.commitment_map().contains_key(k));
                        assert(forall|k: u64|
                            #[trigger] self.nonce_map().contains_key(k)
                                ==> pre.nonce_map().contains_key(k));
                    }
                },
                Some(t) => {
                    proof {
                        assert(t@ == rts[i as int]);
                        assert(tpk_at(rts, i as int) == t.tpk);
                    }
                    self.tpk_map.remove(&t.tpk);
                    let ghost entry = *self;
                    proof {
                        assert(entry.transition_map() == start.transition_map().remove(
                            ridsv[i as int],
                        ));
                        assert(entry.serial_number_map() == start.serial_number_map());
                        assert(entry.commitment_map() == start.commitment_map());
                        assert(entry.nonce_map() == start.nonce_map());
                    }
                    let mut j: usize = 0;
                    while j < t.serial_numbers.len()
                        invariant
                            j <= t.serial_numbers.len(),
                            t@ == rts[i as int],
                            self.id_map() == entry.id_map(),
                            self.reverse_id_map() == entry.reverse_id_map(),
                            self.deployment_map() == entry.deployment_map(),
                            self.transition_map() == entry.transition_map(),
                            self.tpk_map() == entry.tpk_map(),
                            self.commitment_map() == entry.commitment_map(),
                            self.nonce_map() == entry.nonce_map(),
                            forall|j0: int|
                                0 <= j0 < j ==> !self.serial_number_map().contains_key(
                                    #[trigger] sn_at(rts, i as int, j0),
                                ),
                            forall|k: u64|
                                #[trigger] entry.serial_number_map().contains_key(k) && (forall|
                                    j0: int,
                                | 0 <= j0 < j ==> #[trigger] sn_at(rts, i as int, j0) != k)
                                    ==> self.serial_number_map().contains_key(k)
                                    && self.serial_number_map()[k]
                                    == entry.serial_number_map()[k],
                            forall|k: u64|
                                #[trigger] self.serial_number_map().contains_key(k)
                                    ==> entry.serial_number_map().contains_key(k),
                        decreases t.serial_numbers.len() - j,
                    {
                        proof {
                            assert(sn_at(rts, i as int, j as int)
                                == t.serial_numbers@[j as int]);
                        }
                        let ghost before = *self;
                        self.serial_number_map.remove(&t.serial_numbers[j]);
                        proof {
                            assert(self.serial_number_map()
                                == before.serial_number_map().remove(
                                sn_at(rts, i as int, j as int),
                            ));
                        }
                        j = j + 1;
                    }
                    let ghost after_sn = *self;
                    let mut j: usize = 0;
                    while j < t.commitments.len()
                        invariant
                            j <= t.commitments.len(),
                            t@ == rts[i as int],
                            self.id_map() == after_sn.id_map(),
                            self.reverse_id_map() == after_sn.reverse_id_map(),
                            self.deployment_map() == after_sn.deployment_map(),
                            self.transition_map() == after_sn.transition_map(),
                            self.tpk_map() == after_sn.tpk_map(),
                            self.serial_number_map() == after_sn.serial_number_map(),
                            self.nonce_map() == after_sn.nonce_map(),
                            forall|j0: int|
                                0 <= j0 < j ==> !self.commitment_map().contains_key(
                                    #[trigger] cm_at(rts, i as int, j0),
                                ),
                            forall|k: u64|
                                #[trigger] after_sn.commitment_map().contains_key(k) && (forall|
                                    j0: int,
                                | 0 <= j0 < j ==> #[trigger] cm_at(rts, i as int, j0) != k)
                                    ==> self.commitment_map().contains_key(k)
                                    && self.commitment_map()[k] == after_sn.commitment_map()[k],
                            forall|k: u64|
                                #[trigger] self.commitment_map().contains_key(k)
                                    ==> after_sn.commitment_map().contains_key(k),
                        decreases t.commitments.len() - j,
                    {
                        proof {
                            assert(cm_at(rts, i as int, j as int) == t.commitments@[j as int]);
                        }
                        let ghost before = *self;
                        self.commitment_map.remove(&t.commitments[j]);
                        proof {
                            assert(self.commitment_map() == before.commitment_map().remove(
                                cm_at(rts, i as int, j as int),
                            ));
                        }
                        j = j + 1;
                    }
                    let ghost after_cm = *self;
                    let mut j: usize = 0;
                    while j < t.nonces.len()
                        invariant
                            j <= t.nonces.len(),
                            t@ == rts[i as int],
                            self.id_map() == after_cm.id_map(),
                            self.reverse_id_map() == after_cm.reverse_id_map(),
                            self.deployment_map() == after_cm.deployment_map(),
                            self.transition_map() == after_cm.transition_map(),
                            self.tpk_map() == after_cm.tpk_map(),
                            self.serial_number_map() == after_cm.serial_number_map(),
                            self.commitment_map() == after_cm.commitment_map(),
                            forall|j0: int|
                                0 <= j0 < j ==> !self.nonce_map().contains_key(
                                    #[trigger] nonce_at(rts, i as int, j0),
                                ),
                            forall|k: u64|
                                #[trigger] after_cm.nonce_map().contains_key(k) && (forall|
                                    j0: int,
                                | 0 <= j0 < j ==> #[trigger] nonce_at(rts, i as int, j0) != k)
                                    ==> self.nonce_map().contains_key(k) && self.nonce_map()[k]
                                    == after_cm.nonce_map()[k],
                            forall|k: u64|
                                #[trigger] self.nonce_map().contains_key(k)
                                    ==> after_cm.nonce_map().contains_key(k),
                        decreases t.nonces.len() - j,
                    {
                        proof {
                            assert(nonce_at(rts, i as int, j as int) == t.nonces@[j as int]);
                        }
                        let ghost before = *self;
                        self.nonce_map.remove(&t.nonces[j]);
                        proof {
                            assert(self.nonce_map() == before.nonce_map().remove(
                                nonce_at(rts, i as int, j as int),
                            ));
                        }
                        j = j + 1;
                    }
                    proof {
                        let ip = i as int;
                        assert(self.serial_number_map() == after_cm.serial_number_map());
                        assert(after_cm.serial_number_map() == after_sn.serial_number_map());
                        assert(self.commitment_map() == after_cm.commitment_map());
                        assert(self.transition_map() == entry.transition_map());
                        assert(self.tpk_map() == entry.tpk_map());
                        assert forall|i0: int|
                            0 <= i0 < ip + 1 implies !self.transition_map().contains_key(
                            #[trigger] ridsv[i0],
                        ) by {
                            if i0 < ip {
                                assert(!start.transition_map().contains_key(ridsv[i0]));
                            }
                        }
                        assert forall|k: u64|
                            #[trigger] pre.transition_map().contains_key(k) && (forall|i0: int|
                                0 <= i0 < ip + 1 ==> #[trigger] ridsv[i0] != k)
                                implies self.transition_map().contains_key(k)
                                && self.transition_map()[k] == pre.transition_map()[k] by {
                            assert(ridsv[ip] != k);
                            assert(start.transition_map().contains_key(k)
                                && start.transition_map()[k] == pre.transition_map()[k]);
                        }
                        assert forall|k: u64|
                            #[trigger] self.transition_map().contains_key(k)
                                implies pre.transition_map().contains_key(k) by {
                            assert(start.transition_map().contains_key(k));
                        }
                        assert forall|i0: int|
                            0 <= i0 < ip + 1 implies !self.tpk_map().contains_key(
                            #[trigger] tpk_at(rts, i0),
                        ) by {
                            if i0 < ip {
                                assert(!start.tpk_map().contains_key(tpk_at(rts, i0)));
                            }
                        }
                        assert forall|k: u64|
                            #[trigger] pre.tpk_map().contains_key(k) && (forall|i0: int|
                                0 <= i0 < ip + 1 ==> #[trigger] tpk_at(rts, i0) != k)
                                implies self.tpk_map().contains_key(k) && self.tpk_map()[k]
                                == pre.tpk_map()[k] by {
                            assert(tpk_at(rts, ip) != k);
                            assert(start.tpk_map().contains_key(k) && start.tpk_map()[k]
                                == pre.tpk_map()[k]);
                        }
                        assert forall|k: u64|
                            #[trigger] self.tpk_map().contains_key(k)
                                implies pre.tpk_map().contains_key(k) by {
                            assert(start.tpk_map().contains_key(k));
                        }
                        assert(rts[ip].serial_numbers.len() == t.serial_numbers@.len());
                        assert forall|i0: int, j: int|
                            sn_in_range(rts, i0, j) && i0 < ip + 1 implies
                            !self.serial_number_map().contains_key(
                            #[trigger] sn_at(rts, i0, j),
                        ) by {
                            if i0 < ip {
                                if self.serial_number_map().contains_key(sn_at(rts, i0, j)) {
                                    assert(after_sn.serial_number_map().contains_key(sn_at(
                                        rts,
                                        i0,
                                        j,
                                    )));
                                    assert(entry.serial_number_map().contains_key(sn_at(
                                        rts,
                                        i0,
                                        j,
                                    )));
                                    assert(start.serial_number_map().contains_key(sn_at(
                                        rts,
                                        i0,
                                        j,
                                    )));
                                }
                            }
                        }
                        assert forall|k: u64|
                            #[trigger] pre.serial_number_map().contains_key(k) && (forall|
                                i0: int,
                                j: int,
                            |
                                sn_in_range(rts, i0, j) && i0 < ip + 1 ==> #[trigger] sn_at(
                                    rts,
                                    i0,
                                    j,
                                ) != k) implies self.serial_number_map().contains_key(k)
                                && self.serial_number_map()[k] == pre.serial_number_map()[k]
                            by {
                            assert(start.serial_number_map().contains_key(k)
                                && start.serial_number_map()[k] == pre.serial_number_map()[k]);
                            assert(entry.serial_number_map().contains_key(k)
                                && entry.serial_number_map()[k] == pre.serial_number_map()[k]);
                            assert(forall|j0: int|
                                0 <= j0 < t.serial_numbers@.len() ==> #[trigger] sn_at(
                                    rts,
                                    ip,
                                    j0,
                                ) != k);
                        }
                        assert forall|k: u64|
                            #[trigger] self.serial_number_map().contains_key(k)
                                implies pre.serial_number_map().contains_key(k) by {
                            assert(entry.serial_number_map().contains_key(k));
                            assert(start.serial_number_map().contains_key(k));
                        }
                        assert(rts[ip].commitments.len() == t.commitments@.len());
                        assert forall|i0: int, j: int|
                            cm_in_range(rts, i0, j) && i0 < ip + 1 implies
                            !self.commitment_map().contains_key(#[trigger] cm_at(rts, i0, j)) by {
                            if i0 < ip {
                                if self.commitment_map().contains_key(cm_at(rts, i0, j)) {
                                    assert(after_cm.commitment_map().contains_key(cm_at(
                                        rts,
                                        i0,
                                        j,
                                    )));
                                    assert(after_sn.commitment_map().contains_key(cm_at(
                                        rts,
                                        i0,
                                        j,
                                    )));
                                    assert(start.commitment_map().contains_key(cm_at(
                                        rts,
                                        i0,
                                        j,
                                    )));
                                }
                            }
                        }
                        assert forall|k: u64|
                            #[trigger] pre.commitment_map().contains_key(k) && (forall|
                                i0: int,
                                j: int,
                            |
                                cm_in_range(rts, i0, j) && i0 < ip + 1 ==> #[trigger] cm_at(
                                    rts,
                                    i0,
                                    j,
                                ) != k) implies self.commitment_map().contains_key(k)
                                && self.commitment_map()[k] == pre.commitment_map()[k] by {
                            assert(start.commitment_map().contains_key(k)
                                && start.commitment_map()[k] == pre.commitment_map()[k]);
                            assert(after_sn.commitment_map().contains_key(k)
                                && after_sn.commitment_map()[k] == pre.commitment_map()[k]);
                            assert(forall|j0: int|
                                0 <= j0 < t.commitments@.len() ==> #[trigger] cm_at(
                                    rts,
                                    ip,
                                    j0,
                                ) != k);
                        }
                        assert forall|k: u64|
                            #[trigger] self.commitment_map().contains_key(k)
                                implies pre.commitment_map().contains_key(k) by {
                            assert(after_sn.commitment_map().contains_key(k));
                            assert(start.commitment_map().contains_key(k));
                        }
                        assert(rts[ip].nonces.len() == t.nonces@.len());
                        assert forall|i0: int, j: int|
                            nonce_in_range(rts, i0, j) && i0 < ip + 1 implies
                            !self.nonce_map().contains_key(#[trigger] nonce_at(rts, i0, j)) by {
                            if i0 < ip {
                                if self.nonce_map().contains_key(nonce_at(rts, i0, j)) {
                                    assert(after_cm.nonce_map().contains_key(nonce_at(
                                        rts,
                                        i0,
                                        j,
                                    )));
                                    assert(start.nonce_map().contains_key(nonce_at(
                                        rts,
                                        i0,
                                        j,
                                    )));
                                }
                            }
                        }
                        assert forall|k: u64|
                            #[trigger] pre.nonce_map().contains_key(k) && (forall|
                                i0: int,
                                j: int,
                            |
                                nonce_in_range(rts, i0, j) && i0 < ip + 1
                                    ==> #[trigger] nonce_at(rts, i0, j) != k)
                                implies self.nonce_map().contains_key(k) && self.nonce_map()[k]
                                == pre.nonce_map()[k] by {
                            assert(start.nonce_map().contains_key(k) && start.nonce_map()[k]
                                == pre.nonce_map()[k]);
                            assert(after_cm.nonce_map().contains_key(k)
                                && after_cm.nonce_map()[k] == pre.nonce_map()[k]);
                            assert(forall|j0: int|
                                0 <= j0 < t.nonces@.len() ==> #[trigger] nonce_at(
                                    rts,
                                    ip,
                                    j0,
                                ) != k);
                        }
                        assert forall|k: u64|
                            #[trigger] self.nonce_map().contains_key(k)
                                implies pre.nonce_map().contains_key(k) by {
                            assert(after_cm.nonce_map().contains_key(k));
                            assert(start.nonce_map().contains_key(k));
                        }
                    }
                },
            }
            i = i + 1;
        }
        Ok(())
    }
}

} // verus!
