//! Signed plugins: how a plugin is admitted before any of its code runs, and the driver of the
//! functions that a plugin exports.
//!
//! No byte of a plugin runs unless a trusted Ed25519 key verifies the signature over exactly the
//! bytes that are compiled. Admission fails closed: whatever is missing or malformed is a refusal.
use crate::text;
use crate::text::{chars_of, decimal_string, string_of, trimmed};
use ed25519_dalek::Verifier;
use vstd::prelude::*;
use vstd::utf8;

verus! {

// ---------------------------------------------------------------------------
// Refusals

/// Why a plugin was refused. Every variant is a refusal to run code.
#[derive(Debug, Clone, Copy, PartialEq, Eq, Structural)]
pub enum Reject {
    /// No trusted key verifies the signature: the bytes were changed, or the author is not
    /// trusted.
    Untrusted,
    /// The signature is not 64 bytes long.
    MalformedSignature,
    /// There is no trusted key, so nothing loads.
    NoTrustedKeys,
    /// None of the trusted keys is a valid key.
    NoUsableKeys,
}

/// The sentence that a refusal is reported with.
pub open spec fn reject_text(r: Reject) -> Seq<char> {
    match r {
        Reject::Untrusted => "no trusted key verifies the plugin signature"@,
        Reject::MalformedSignature => "plugin signature is not a 64-byte Ed25519 signature"@,
        Reject::NoTrustedKeys => "trusted-authors list is empty (nothing can load)"@,
        Reject::NoUsableKeys => "no trusted-authors entry is a valid 32-byte Ed25519 key"@,
    }
}

impl Reject {
    /// The sentence that the refusal is reported with.
    pub fn message(&self) -> (r: &'static str)
        ensures
            r@ == reject_text(*self),
    {
        match self {
            Reject::Untrusted => "no trusted key verifies the plugin signature",
            Reject::MalformedSignature => "plugin signature is not a 64-byte Ed25519 signature",
            Reject::NoTrustedKeys => "trusted-authors list is empty (nothing can load)",
            Reject::NoUsableKeys => "no trusted-authors entry is a valid 32-byte Ed25519 key",
        }
    }
}

/// Why a plugin did not load: it was refused, or it was admitted and did not compile.
#[derive(Debug, Clone, PartialEq, Eq)]
pub enum LoadError {
    Reject(Reject),
    Wasm(String),
}

impl LoadError {
    /// The sentence that the failure is reported with.
    pub fn message(&self) -> (r: String)
        ensures
            r@ == (match *self {
                LoadError::Reject(j) => "REJECTED: "@ + reject_text(j),
                LoadError::Wasm(e) => "wasm load error: "@ + e@,
            }),
    {
        let mut r = String::new();
        match self {
            LoadError::Reject(j) => {
                r.append("REJECTED: ");
                r.append(j.message());
                assert(r@ =~= "REJECTED: "@ + reject_text(*j));
            },
            LoadError::Wasm(e) => {
                r.append("wasm load error: ");
                r.append(e.as_str());
                assert(r@ =~= "wasm load error: "@ + e@);
            },
        }
        r
    }
}

impl From<Reject> for LoadError {
    fn from(r: Reject) -> (e: Self) {
        LoadError::Reject(r)
    }
}

impl vstd::std_specs::convert::FromSpecImpl<Reject> for LoadError {
    open spec fn obeys_from_spec() -> bool {
        true
    }

    open spec fn from_spec(r: Reject) -> Self {
        LoadError::Reject(r)
    }
}

// ---------------------------------------------------------------------------
// Signatures

/// `ed25519_dalek::VerifyingKey`: a public key.
#[verifier::external_type_specification]
#[verifier::external_body]
pub struct ExVerifyingKey(ed25519_dalek::VerifyingKey);

/// Whether `VerifyingKey::from_bytes` of ed25519-dalek takes these 32 bytes for a public key.
pub uninterp spec fn key_usable(raw: Seq<u8>) -> bool;

/// Whether `VerifyingKey::verify` of ed25519-dalek, for the key of these 32 bytes, finds the 64
/// bytes of `signature` a valid signature over `message`.
pub uninterp spec fn verifies(raw: Seq<u8>, message: Seq<u8>, signature: Seq<u8>) -> bool;

/// A public key, and the bytes that it was read from.
struct Key {
    key: ed25519_dalek::VerifyingKey,
    raw: Ghost<Seq<u8>>,
}

/// Wraps `VerifyingKey::from_bytes` of ed25519-dalek: which bytes are a key is left to the name.
/// The claim is that the answer depends on the bytes alone, and that the key is the one of these
/// bytes.
#[verifier::external_body]
fn read_key(raw: &[u8; 32]) -> (r: Option<Key>)
    ensures
        r is Some == key_usable(raw@),
        r matches Some(k) ==> k.raw@ == raw@,
{
    match ed25519_dalek::VerifyingKey::from_bytes(raw) {
        Ok(key) => Some(Key { key, raw: Ghost(raw@) }),
        Err(_) => None,
    }
}

/// Wraps `VerifyingKey::verify` of ed25519-dalek on a signature that `Signature::from_bytes` makes
/// of its 64 bytes: which signatures are valid is left to the name. The claim is that the answer
/// depends on the key, the message and the signature alone.
#[verifier::external_body]
fn verify(key: &Key, message: &[u8], signature: &[u8; 64]) -> (r: bool)
    ensures
        r == verifies(key.raw@, message@, signature@),
{
    key.key.verify(message, &ed25519_dalek::Signature::from_bytes(signature)).is_ok()
}

/// Whether some trusted key is usable.
pub open spec fn any_usable(keys: Seq<[u8; 32]>) -> bool {
    exists|i: int| 0 <= i < keys.len() && key_usable(#[trigger] keys[i]@)
}

/// Whether some trusted key verifies the signature over `message`.
pub open spec fn any_verifies(keys: Seq<[u8; 32]>, message: Seq<u8>, signature: Seq<u8>) -> bool {
    exists|i: int|
        0 <= i < keys.len() && key_usable(#[trigger] keys[i]@) && verifies(
            keys[i]@,
            message,
            signature,
        )
}

/// Why a plugin is refused; nothing where it is admitted.
pub open spec fn refusal(
    message: Seq<u8>,
    signature: Seq<u8>,
    keys: Seq<[u8; 32]>,
) -> Option<Reject> {
    if keys.len() == 0 {
        Some(Reject::NoTrustedKeys)
    } else if signature.len() != 64 {
        Some(Reject::MalformedSignature)
    } else {
        verdict(any_usable(keys), any_verifies(keys, message, signature))
    }
}

/// Why a plugin is refused, given whether some key is usable and whether some key verifies.
pub open spec fn verdict(usable: bool, verified: bool) -> Option<Reject> {
    if !usable {
        Some(Reject::NoUsableKeys)
    } else if !verified {
        Some(Reject::Untrusted)
    } else {
        None
    }
}

/// Decides on the keys: what they came to, and no more.
pub fn decide(usable: bool, verified: bool) -> (r: Option<Reject>)
    ensures
        r == verdict(usable, verified),
{
    if !usable {
        Some(Reject::NoUsableKeys)
    } else if !verified {
        Some(Reject::Untrusted)
    } else {
        None
    }
}

/// The 64 bytes of a signature.
fn signature_bytes(signature: &[u8]) -> (r: Option<[u8; 64]>)
    ensures
        match r {
            Some(a) => a@ == signature@,
            None => signature@.len() != 64,
        },
{
    if signature.len() != 64 {
        return None;
    }
    let mut a: [u8; 64] = [0u8;64];
    let mut i: usize = 0;
    while i < 64
        invariant
            i <= 64,
            signature@.len() == 64,
            forall|j: int| 0 <= j < i ==> a@[j] == signature@[j],
        decreases 64 - i,
    {
        a[i] = signature[i];
        i += 1;
    }
    assert(a@ =~= signature@);
    Some(a)
}

/// Checks `signature` over `wasm_bytes` against the trusted keys, and says why the plugin is
/// refused, if it is.
pub fn check_signature(
    wasm_bytes: &[u8],
    signature: &[u8],
    trusted_keys: &[[u8; 32]],
) -> (r: Option<Reject>)
    ensures
        r == refusal(wasm_bytes@, signature@, trusted_keys@),
{
    if trusted_keys.len() == 0 {
        return Some(Reject::NoTrustedKeys);
    }
    let sig: [u8; 64] = match signature_bytes(signature) {
        Some(a) => a,
        None => {
            return Some(Reject::MalformedSignature);
        },
    };
    let mut usable: bool = false;
    let mut i: usize = 0;
    while i < trusted_keys.len()
        invariant
            i <= trusted_keys@.len(),
            trusted_keys@.len() > 0,
            signature@.len() == 64,
            sig@ == signature@,
            usable == exists|j: int| 0 <= j < i && key_usable(#[trigger] trusted_keys@[j]@),
            forall|j: int|
                0 <= j < i ==> !(key_usable(#[trigger] trusted_keys@[j]@) && verifies(
                    trusted_keys@[j]@,
                    wasm_bytes@,
                    signature@,
                )),
        decreases trusted_keys@.len() - i,
    {
        let raw: &[u8; 32] = &trusted_keys[i];
        if let Some(key) = read_key(raw) {
            assert(key_usable(trusted_keys@[i as int]@));
            usable = true;
            if verify(&key, wasm_bytes, &sig) {
                assert(any_verifies(trusted_keys@, wasm_bytes@, signature@));
                return decide(true, true);
            }
        }
        i += 1;
    }
    decide(usable, false)
}

/// Admission fails closed: a plugin is admitted only where there is a trusted key that is usable and
/// verifies a signature of 64 bytes over exactly these bytes; in every other case it is refused.
pub proof fn admission_fails_closed(message: Seq<u8>, signature: Seq<u8>, keys: Seq<[u8; 32]>)
    ensures
        refusal(message, signature, keys) is None <==> signature.len() == 64 && any_verifies(
            keys,
            message,
            signature,
        ),
        keys.len() == 0 ==> refusal(message, signature, keys) == Some(Reject::NoTrustedKeys),
        keys.len() > 0 && signature.len() != 64 ==> refusal(message, signature, keys) == Some(
            Reject::MalformedSignature,
        ),
{
    if any_verifies(keys, message, signature) {
        let i = choose|i: int|
            0 <= i < keys.len() && key_usable(#[trigger] keys[i]@) && verifies(
                keys[i]@,
                message,
                signature,
            );
        assert(key_usable(keys[i]@));
    }
}

/// Whether every key of `keys` is also one of `others`, wherever and however often.
pub open spec fn among(keys: Seq<[u8; 32]>, others: Seq<[u8; 32]>) -> bool {
    forall|i: int| 0 <= i < keys.len() ==> others.contains(#[trigger] keys[i])
}

/// What some key brings about, more keys bring about too.
proof fn lemma_among(
    message: Seq<u8>,
    signature: Seq<u8>,
    keys: Seq<[u8; 32]>,
    others: Seq<[u8; 32]>,
)
    requires
        among(keys, others),
    ensures
        keys.len() > 0 ==> others.len() > 0,
        any_usable(keys) ==> any_usable(others),
        any_verifies(keys, message, signature) ==> any_verifies(others, message, signature),
{
    if keys.len() > 0 {
        assert(others.contains(keys[0]));
    }
    if any_usable(keys) {
        let i = choose|i: int| 0 <= i < keys.len() && key_usable(#[trigger] keys[i]@);
        let j = others.index_of(keys[i]);
        assert(others.contains(keys[i]));
        assert(key_usable(others[j]@));
    }
    if any_verifies(keys, message, signature) {
        let i = choose|i: int|
            0 <= i < keys.len() && key_usable(#[trigger] keys[i]@) && verifies(
                keys[i]@,
                message,
                signature,
            );
        let j = others.index_of(keys[i]);
        assert(others.contains(keys[i]));
        assert(key_usable(others[j]@));
    }
}

/// Any trusted key will do: a list that holds all the keys of another, and whatever else, never
/// refuses a plugin that the other admits.
pub proof fn trusting_more_admits_more(
    message: Seq<u8>,
    signature: Seq<u8>,
    keys: Seq<[u8; 32]>,
    others: Seq<[u8; 32]>,
)
    requires
        refusal(message, signature, keys) is None,
        among(keys, others),
    ensures
        refusal(message, signature, others) is None,
{
    lemma_among(message, signature, keys, others);
}

/// Only the keys count: their order in the list, and how often each stands there, change no
/// verdict.
pub proof fn order_and_repeats_do_not_count(
    message: Seq<u8>,
    signature: Seq<u8>,
    keys: Seq<[u8; 32]>,
    others: Seq<[u8; 32]>,
)
    requires
        among(keys, others),
        among(others, keys),
    ensures
        refusal(message, signature, keys) == refusal(message, signature, others),
{
    lemma_among(message, signature, keys, others);
    lemma_among(message, signature, others, keys);
}

// ---------------------------------------------------------------------------
// Loading

/// `wasmtime::Engine`: what modules are compiled by.
#[verifier::external_type_specification]
#[verifier::external_body]
pub struct ExEngine(wasmtime::Engine);

/// `wasmtime::Module`: a compiled module.
#[verifier::external_type_specification]
#[verifier::external_body]
pub struct ExModule(wasmtime::Module);

/// `wasmtime::Error`: why something went wrong in wasmtime.
#[verifier::external_type_specification]
#[verifier::external_body]
pub struct ExError(wasmtime::Error);

/// A compiled module, and the bytes that it was compiled from.
struct Compiled {
    module: wasmtime::Module,
    source: Ghost<Seq<u8>>,
}

/// Wraps `Module::from_binary` of wasmtime. The claim is that the module is compiled from these
/// very bytes; whether they compile also depends on the engine, and is left open.
#[verifier::external_body]
fn compile(engine: &wasmtime::Engine, bytes: &[u8]) -> (r: Result<Compiled, wasmtime::Error>)
    ensures
        r matches Ok(m) ==> m.source@ == bytes@,
{
    let module = wasmtime::Module::from_binary(engine, bytes)?;
    Ok(Compiled { module, source: Ghost(bytes@) })
}

/// Wraps `ToString::to_string` of std on an error of wasmtime. Nothing is claimed of the text.
#[verifier::external_body]
fn error_text(e: &wasmtime::Error) -> (r: String) {
    e.to_string()
}

/// A plugin that was admitted: the module compiled from its bytes. There is no other way to make
/// one.
pub struct PluginModule {
    compiled: Compiled,
    key: Ghost<Seq<u8>>,
    signature: Ghost<Seq<u8>>,
}

impl PluginModule {
    /// The bytes that the module was compiled from.
    pub closed spec fn source(&self) -> Seq<u8> {
        self.compiled.source@
    }

    /// The trusted key that verified the plugin.
    pub closed spec fn key(&self) -> Seq<u8> {
        self.key@
    }

    /// The signature that the key verified.
    pub closed spec fn signature(&self) -> Seq<u8> {
        self.signature@
    }

    /// Its key verified its signature over the bytes that it was compiled from.
    #[verifier::type_invariant]
    spec fn admitted(&self) -> bool {
        &&& key_usable(self.key@)
        &&& verifies(self.key@, self.compiled.source@, self.signature@)
    }
}

/// What loading comes to, once the plugin is admitted: what came of compiling it.
fn settle(compiled: Result<PluginModule, wasmtime::Error>) -> (r: Result<PluginModule, LoadError>)
    ensures
        match compiled {
            Ok(m) => r == Ok::<PluginModule, LoadError>(m),
            Err(_) => r matches Err(LoadError::Wasm(_)),
        },
{
    match compiled {
        Ok(m) => Ok(m),
        Err(e) => Err(LoadError::Wasm(error_text(&e))),
    }
}

/// Loads a plugin: compiles `wasm_bytes` if, and only if, a trusted key verifies `signature` over
/// them. A refusal comes before anything is compiled; a plugin that is admitted and does not
/// compile is another error.
pub fn verify_then_load(
    engine: &wasmtime::Engine,
    wasm_bytes: &[u8],
    signature: &[u8],
    trusted_keys: &[[u8; 32]],
) -> (r: Result<PluginModule, LoadError>)
    ensures
        match refusal(wasm_bytes@, signature@, trusted_keys@) {
            Some(j) => r == Err::<PluginModule, LoadError>(LoadError::Reject(j)),
            None => match r {
                Ok(m) => {
                    &&& m.source() == wasm_bytes@
                    &&& m.signature() == signature@
                    &&& verifies(m.key(), m.source(), m.signature())
                    &&& exists|i: int|
                        0 <= i < trusted_keys@.len() && #[trigger] trusted_keys@[i]@ == m.key()
                },
                Err(e) => e is Wasm,
            },
        },
{
    if let Some(j) = check_signature(wasm_bytes, signature, trusted_keys) {
        return Err(LoadError::from(j));
    }
    let ghost at = choose|i: int|
        0 <= i < trusted_keys@.len() && key_usable(#[trigger] trusted_keys@[i]@) && verifies(
            trusted_keys@[i]@,
            wasm_bytes@,
            signature@,
        );
    let compiled = match compile(engine, wasm_bytes) {
        Ok(compiled) => Ok(
            PluginModule {
                compiled,
                key: Ghost(trusted_keys@[at]@),
                signature: Ghost(signature@),
            },
        ),
        Err(e) => Err(e),
    };
    settle(compiled)
}

// ---------------------------------------------------------------------------
// Running

/// `wasmtime::Store`: what running modules live in.
#[verifier::external_type_specification]
#[verifier::external_body]
#[verifier::reject_recursive_types(T)]
pub struct ExStore<T: 'static>(wasmtime::Store<T>);

/// `wasmtime::Instance`: a running module.
#[verifier::external_type_specification]
#[verifier::external_body]
pub struct ExInstance(wasmtime::Instance);

/// `wasmtime::Memory`: the memory of a running module.
#[verifier::external_type_specification]
#[verifier::external_body]
pub struct ExMemory(wasmtime::Memory);

/// `wasmtime::TypedFunc`: a function of a running module.
#[verifier::external_type_specification]
#[verifier::external_body]
#[verifier::reject_recursive_types(Params)]
#[verifier::reject_recursive_types(Results)]
pub struct ExTypedFunc<Params, Results>(wasmtime::TypedFunc<Params, Results>);

/// `wasmtime::MemoryAccessError`: an access outside the memory.
#[verifier::external_type_specification]
#[verifier::external_body]
pub struct ExMemoryAccessError(wasmtime::MemoryAccessError);

/// What the host has done to a plugin.
pub enum Event {
    /// The module was started, from these bytes.
    Started { source: Seq<u8>, ok: bool },
    /// A function was called. It returned this value, if it returned, and left this memory.
    Called { name: Seq<char>, args: Seq<u32>, result: Option<u64>, memory: Seq<u8> },
    /// Bytes were written to the memory, if they fit.
    Wrote { at: u32, bytes: Seq<u8>, fits: bool },
}

/// The arguments of a function: 32-bit words.
pub trait Arguments {
    /// How many words they are.
    spec fn count() -> nat;

    /// The words.
    spec fn words(&self) -> Seq<u32>;
}

impl Arguments for () {
    open spec fn count() -> nat {
        0
    }

    open spec fn words(&self) -> Seq<u32> {
        Seq::empty()
    }
}

impl Arguments for u32 {
    open spec fn count() -> nat {
        1
    }

    open spec fn words(&self) -> Seq<u32> {
        seq![*self]
    }
}

impl Arguments for (u32, u32) {
    open spec fn count() -> nat {
        2
    }

    open spec fn words(&self) -> Seq<u32> {
        seq![self.0, self.1]
    }
}

impl Arguments for (u32, u32, u32, u32) {
    open spec fn count() -> nat {
        4
    }

    open spec fn words(&self) -> Seq<u32> {
        seq![self.0, self.1, self.2, self.3]
    }
}

/// What a function returns: nothing, or a value of 32 or 64 bits.
pub trait Returned {
    /// How many bits it has.
    spec fn bits() -> nat;

    /// Its value, 0 for nothing.
    spec fn value(&self) -> u64;
}

impl Returned for () {
    open spec fn bits() -> nat {
        0
    }

    open spec fn value(&self) -> u64 {
        0
    }
}

impl Returned for u32 {
    open spec fn bits() -> nat {
        32
    }

    open spec fn value(&self) -> u64 {
        *self as u64
    }
}

impl Returned for u64 {
    open spec fn bits() -> nat {
        64
    }

    open spec fn value(&self) -> u64 {
        *self
    }
}

/// Whether `Instance::get_memory` of wasmtime finds a memory of this name among the exports of the
/// module with these bytes.
pub uninterp spec fn exports_memory(source: Seq<u8>, name: Seq<char>) -> bool;

/// Whether `Instance::get_typed_func` of wasmtime finds a function of this name among the exports
/// of the module with these bytes that takes `count` 32-bit words and returns `bits` bits.
pub uninterp spec fn exports_function(
    source: Seq<u8>,
    name: Seq<char>,
    count: nat,
    bits: nat,
) -> bool;

/// A store for one running module, with what has been done to it and the contents of the memory
/// that the module exports.
struct Machine {
    store: wasmtime::Store<()>,
    id: Ghost<int>,
    log: Ghost<Seq<Event>>,
    memory: Ghost<Seq<u8>>,
}

/// A running module, and the store that it lives in.
struct Linked {
    instance: wasmtime::Instance,
    owner: Ghost<int>,
    source: Ghost<Seq<u8>>,
}

/// The memory of a running module, and the store that it lives in.
struct Region {
    memory: wasmtime::Memory,
    owner: Ghost<int>,
}

/// A function of a running module, its name, and the store that it lives in.
#[verifier::reject_recursive_types(P)]
#[verifier::reject_recursive_types(R)]
struct Export<P, R> {
    func: wasmtime::TypedFunc<P, R>,
    owner: Ghost<int>,
    name: Ghost<Seq<char>>,
}

/// Wraps `Store::new` of wasmtime: a store that nothing has been done to.
#[verifier::external_body]
fn new_machine(engine: &wasmtime::Engine) -> (r: Machine)
    ensures
        r.log@ == Seq::<Event>::empty(),
{
    Machine {
        store: wasmtime::Store::new(engine, ()),
        id: Ghost(arbitrary()),
        log: Ghost(Seq::empty()),
        memory: Ghost(Seq::empty()),
    }
}

/// Wraps `Instance::new` of wasmtime, with nothing for the module to import: the module is started
/// in the store. Whether that works is left open. Wasmtime is built without its async support, so
/// that every store can be used in this way.
#[verifier::external_body]
fn start(m: &mut Machine, module: &Compiled) -> (r: Result<Linked, wasmtime::Error>)
    requires
        old(m).log@.len() == 0,
    ensures
        final(m).id == old(m).id,
        final(m).log@ == seq![Event::Started { source: module.source@, ok: r is Ok }],
        r matches Ok(l) ==> l.owner == final(m).id && l.source@ == module.source@,
{
    let instance = wasmtime::Instance::new(&mut m.store, &module.module, &[])?;
    Ok(Linked { instance, owner: Ghost(m.id@), source: Ghost(module.source@) })
}

/// Wraps `Instance::get_memory` of wasmtime. It finds a memory or not according to the exports of
/// the module, and changes nothing.
#[verifier::external_body]
fn find_memory(m: &mut Machine, linked: &Linked, name: &str) -> (r: Option<Region>)
    requires
        linked.owner == old(m).id,
        name@ == "memory"@,
    ensures
        final(m).id == old(m).id,
        final(m).log == old(m).log,
        final(m).memory == old(m).memory,
        r is Some == exports_memory(linked.source@, name@),
        r matches Some(region) ==> region.owner == final(m).id,
{
    let memory = linked.instance.get_memory(&mut m.store, name)?;
    Some(Region { memory, owner: Ghost(m.id@) })
}

/// Wraps `Instance::get_typed_func` of wasmtime. It finds the function or not according to the
/// exports of the module and their types, and changes nothing.
#[verifier::external_body]
fn find_function<P: wasmtime::WasmParams + Arguments, R: wasmtime::WasmResults + Returned>(
    m: &mut Machine,
    linked: &Linked,
    name: &str,
) -> (r: Result<Export<P, R>, wasmtime::Error>)
    requires
        linked.owner == old(m).id,
    ensures
        final(m).id == old(m).id,
        final(m).log == old(m).log,
        final(m).memory == old(m).memory,
        r is Ok == exports_function(linked.source@, name@, P::count(), R::bits()),
        r matches Ok(e) ==> e.owner == final(m).id && e.name@ == name@,
{
    let func = linked.instance.get_typed_func::<P, R>(&mut m.store, name)?;
    Ok(Export { func, owner: Ghost(m.id@), name: Ghost(name@) })
}

/// Wraps `TypedFunc::call` of wasmtime. What the function returns, and what it leaves in the
/// memory, is up to the plugin: the call is put on record with both. Wasmtime is built without its
/// async support, so that every store can be used in this way.
#[verifier::external_body]
fn call<P: wasmtime::WasmParams + Arguments, R: wasmtime::WasmResults + Returned>(
    m: &mut Machine,
    e: &Export<P, R>,
    args: P,
) -> (r: Result<R, wasmtime::Error>)
    requires
        e.owner == old(m).id,
    ensures
        final(m).id == old(m).id,
        final(m).log@ == old(m).log@.push(
            Event::Called {
                name: e.name@,
                args: args.words(),
                result: match r {
                    Ok(v) => Some(v.value()),
                    Err(_) => None,
                },
                memory: final(m).memory@,
            },
        ),
{
    e.func.call(&mut m.store, args)
}

/// Wraps `Memory::write` of wasmtime: the bytes are written where they fit into the memory, and
/// nothing is written where they do not. The write is put on record.
#[verifier::external_body]
fn write(m: &mut Machine, region: &Region, at: u32, bytes: &[u8]) -> (r: Result<
    (),
    wasmtime::MemoryAccessError,
>)
    requires
        region.owner == old(m).id,
    ensures
        final(m).id == old(m).id,
        r is Ok == (at + bytes@.len() <= old(m).memory@.len()),
        final(m).memory@ == (if r is Ok {
            old(m).memory@.take(at as int) + bytes@ + old(m).memory@.skip(at + bytes@.len())
        } else {
            old(m).memory@
        }),
        final(m).log@ == old(m).log@.push(
            Event::Wrote { at, bytes: bytes@, fits: at + bytes@.len() <= old(m).memory@.len() },
        ),
{
    region.memory.write(&mut m.store, at as usize, bytes)
}

/// Wraps `Memory::read` of wasmtime: as many bytes of the memory as the buffer holds, where there
/// are that many.
#[verifier::external_body]
fn read(m: &Machine, region: &Region, at: u32, buffer: &mut Vec<u8>) -> (r: Result<
    (),
    wasmtime::MemoryAccessError,
>)
    requires
        region.owner == m.id,
    ensures
        r is Ok == (at + old(buffer)@.len() <= m.memory@.len()),
        final(buffer)@ == (if r is Ok {
            m.memory@.subrange(at as int, at + old(buffer)@.len())
        } else {
            old(buffer)@
        }),
{
    region.memory.read(&m.store, at as usize, buffer)
}

/// Wraps `ToString::to_string` of std on an access outside the memory, which is always reported
/// with the same words.
#[verifier::external_body]
fn access_error_text(e: &wasmtime::MemoryAccessError) -> (r: String)
    ensures
        r@ == "out of bounds memory access"@,
{
    e.to_string()
}

// ---------------------------------------------------------------------------
// The calls that the host makes

/// What the call on record at `k` returned.
pub open spec fn result_at(log: Seq<Event>, k: int) -> Option<u64> {
    match log[k] {
        Event::Called { result, .. } => result,
        _ => None,
    }
}

/// The memory that the call on record at `k` left.
pub open spec fn memory_at(log: Seq<Event>, k: int) -> Seq<u8> {
    match log[k] {
        Event::Called { memory, .. } => memory,
        _ => Seq::empty(),
    }
}

/// A call of `name`, with whatever the call on record at `k` returned and left.
pub open spec fn call_at(name: Seq<char>, args: Seq<u32>, log: Seq<Event>, k: int) -> Event {
    Event::Called { name, args, result: result_at(log, k), memory: memory_at(log, k) }
}

/// The text that a failure is reported with.
pub enum Words {
    /// This text.
    Whole(Seq<char>),
    /// This text, and behind it what wasmtime says of its error.
    Start(Seq<char>),
}

/// Whether a text reports a failure in these words.
pub open spec fn told(e: Seq<char>, words: Words) -> bool {
    match words {
        Words::Whole(t) => e == t,
        Words::Start(t) => text::starts_with(e, t),
    }
}

/// What is done from the place `k` of the record on, and what comes of it: a value, or a failure.
pub struct Course<T> {
    pub events: Seq<Event>,
    pub outcome: Result<T, Words>,
}

/// Handing bytes to the plugin: a buffer of their length is asked for, and they are written there.
pub open spec fn handing_in(bytes: Seq<u8>, log: Seq<Event>, k: int) -> Course<(u32, u32)> {
    let len = bytes.len() as u32;
    let asked = call_at("plugin_alloc"@, seq![len], log, k);
    match result_at(log, k) {
        None => Course { events: seq![asked], outcome: Err(Words::Start("plugin_alloc: "@)) },
        Some(p) => {
            let at = p as u32;
            let fits = at + bytes.len() <= memory_at(log, k).len();
            Course {
                events: seq![asked, Event::Wrote { at, bytes, fits }],
                outcome: if fits {
                    Ok((at, len))
                } else {
                    Err(Words::Whole("memory write: "@ + "out of bounds memory access"@))
                },
            }
        },
    }
}

/// The place and the length of a buffer, in one value as plugins return it.
pub open spec fn packed_pair(at: u32, len: u32) -> u64 {
    (at as u64) << 32 | (len as u64)
}

/// Packs the place and the length of a buffer.
pub fn pack(at: u32, len: u32) -> (r: u64)
    ensures
        r == packed_pair(at, len),
{
    (at as u64) << 32 | (len as u64)
}

/// Unpacks the place and the length of a buffer.
pub fn unpack(packed: u64) -> (r: (u32, u32))
    ensures
        r.0 == (packed >> 32) as u32,
        r.1 == (packed & 0xFFFF_FFFF) as u32,
{
    (
        #[verifier::truncate] ((packed >> 32) as u32),
        #[verifier::truncate] ((packed & 0xFFFF_FFFF) as u32),
    )
}

/// A place and a length come back from the value that they are packed in.
pub proof fn packing_round_trips(at: u32, len: u32)
    ensures
        (packed_pair(at, len) >> 32) as u32 == at,
        (packed_pair(at, len) & 0xFFFF_FFFF) as u32 == len,
{
    assert((((at as u64) << 32 | (len as u64)) >> 32) as u32 == at) by (bit_vector);
    assert((((at as u64) << 32 | (len as u64)) & 0xFFFF_FFFF) as u32 == len) by (bit_vector);
}

/// Taking bytes from the plugin: those of `memory` that `packed` says, then the buffer is freed.
pub open spec fn handing_out(packed: u64, memory: Seq<u8>, log: Seq<Event>, k: int) -> Course<
    Seq<u8>,
> {
    let at = (packed >> 32) as u32;
    let len = (packed & 0xFFFF_FFFF) as u32;
    if len != 0 && at + len > memory.len() {
        Course {
            events: Seq::empty(),
            outcome: Err(Words::Whole("memory read: "@ + "out of bounds memory access"@)),
        }
    } else {
        Course {
            events: seq![call_at("plugin_dealloc"@, seq![at, len], log, k)],
            outcome: if result_at(log, k) is None {
                Err(Words::Start("plugin_dealloc: "@))
            } else if len == 0 {
                Ok(Seq::empty())
            } else {
                Ok(memory.subrange(at as int, at + len))
            },
        }
    }
}

/// A call without arguments.
pub open spec fn calling_with_none(name: Seq<char>, log: Seq<Event>, k: int) -> Course<Seq<u8>> {
    let called = call_at(name, Seq::empty(), log, k);
    match result_at(log, k) {
        None => Course { events: seq![called], outcome: Err(Words::Start(name + ": "@)) },
        Some(packed) => {
            let out = handing_out(packed, memory_at(log, k), log, k + 1);
            Course { events: seq![called] + out.events, outcome: out.outcome }
        },
    }
}

/// A call with one buffer: it is handed in, the function is called, the buffer is freed, and the
/// result is taken out.
pub open spec fn calling_with_one(
    name: Seq<char>,
    bytes: Seq<u8>,
    log: Seq<Event>,
    k: int,
) -> Course<Seq<u8>> {
    let input = handing_in(bytes, log, k);
    match input.outcome {
        Err(e) => Course { events: input.events, outcome: Err(e) },
        Ok((p, n)) => {
            let j = k + input.events.len();
            let called = call_at(name, seq![p, n], log, j);
            match result_at(log, j) {
                None => Course {
                    events: input.events.push(called),
                    outcome: Err(Words::Start(name + ": "@)),
                },
                Some(packed) => {
                    let freed = call_at("plugin_dealloc"@, seq![p, n], log, j + 1);
                    let out = handing_out(packed, memory_at(log, j + 1), log, j + 2);
                    Course {
                        events: input.events.push(called).push(freed) + out.events,
                        outcome: out.outcome,
                    }
                },
            }
        },
    }
}

/// A call with two buffers: they are handed in, the function is called, the buffers are freed, and
/// the result is taken out.
pub open spec fn calling_with_two(
    name: Seq<char>,
    first: Seq<u8>,
    second: Seq<u8>,
    log: Seq<Event>,
    k: int,
) -> Course<Seq<u8>> {
    let one = handing_in(first, log, k);
    match one.outcome {
        Err(e) => Course { events: one.events, outcome: Err(e) },
        Ok((p, n)) => {
            let two = handing_in(second, log, k + one.events.len());
            let both = one.events + two.events;
            match two.outcome {
                Err(e) => Course { events: both, outcome: Err(e) },
                Ok((q, m)) => {
                    let j = k + both.len();
                    let called = call_at(name, seq![p, n, q, m], log, j);
                    match result_at(log, j) {
                        None => Course {
                            events: both.push(called),
                            outcome: Err(Words::Start(name + ": "@)),
                        },
                        Some(packed) => {
                            let freed = call_at("plugin_dealloc"@, seq![p, n], log, j + 1);
                            let freed_too = call_at("plugin_dealloc"@, seq![q, m], log, j + 2);
                            let out = handing_out(packed, memory_at(log, j + 2), log, j + 3);
                            Course {
                                events: both.push(called).push(freed).push(freed_too) + out.events,
                                outcome: out.outcome,
                            }
                        },
                    }
                },
            }
        },
    }
}

/// Whether a result is the outcome of a course: the value, or the failure in its words.
pub open spec fn agrees(r: Result<Vec<u8>, String>, outcome: Result<Seq<u8>, Words>) -> bool {
    match (r, outcome) {
        (Ok(v), Ok(bytes)) => v@ == bytes,
        (Err(e), Err(words)) => told(e@, words),
        _ => false,
    }
}

fn prefixed(prefix: &str, e: &wasmtime::Error) -> (r: String)
    ensures
        text::starts_with(r@, prefix@),
{
    let mut r = String::new();
    r.append(prefix);
    r.append(error_text(e).as_str());
    assert(r@.take(prefix@.len() as int) =~= prefix@);
    r
}

fn prefixed_access(prefix: &str, e: &wasmtime::MemoryAccessError) -> (r: String)
    ensures
        r@ == prefix@ + "out of bounds memory access"@,
{
    let mut r = String::new();
    r.append(prefix);
    r.append(access_error_text(e).as_str());
    assert(r@ =~= prefix@ + "out of bounds memory access"@);
    r
}

/// Copies bytes into a fresh buffer of the plugin.
fn host_to_wasm(
    m: &mut Machine,
    region: &Region,
    alloc: &Export<u32, u32>,
    bytes: &[u8],
) -> (r: Result<(u32, u32), String>)
    requires
        region.owner == old(m).id,
        alloc.owner == old(m).id,
        alloc.name@ == "plugin_alloc"@,
    ensures
        final(m).id == old(m).id,
        ({
            let c = handing_in(bytes@, final(m).log@, old(m).log@.len() as int);
            &&& final(m).log@ == old(m).log@ + c.events
            &&& match (r, c.outcome) {
                (Ok(p), Ok(q)) => p == q,
                (Err(e), Err(words)) => told(e@, words),
                _ => false,
            }
        }),
{
    let ghost before = m.log@;
    let len: u32 = #[verifier::truncate] (bytes.len() as u32);
    let ptr: u32 = match call(m, alloc, len) {
        Ok(p) => p,
        Err(e) => {
            let r = Err(prefixed("plugin_alloc: ", &e));
            assert(m.log@ =~= before + handing_in(bytes@, m.log@, before.len() as int).events);
            return r;
        },
    };
    match write(m, region, ptr, bytes) {
        Ok(()) => {
            assert(m.log@ =~= before + handing_in(bytes@, m.log@, before.len() as int).events);
            Ok((ptr, len))
        },
        Err(e) => {
            assert(m.log@ =~= before + handing_in(bytes@, m.log@, before.len() as int).events);
            Err(prefixed_access("memory write: ", &e))
        },
    }
}

/// Copies out the bytes that `packed` says and frees their buffer.
fn wasm_to_host(
    m: &mut Machine,
    region: &Region,
    dealloc: &Export<(u32, u32), ()>,
    packed: u64,
) -> (r: Result<Vec<u8>, String>)
    requires
        region.owner == old(m).id,
        dealloc.owner == old(m).id,
        dealloc.name@ == "plugin_dealloc"@,
    ensures
        final(m).id == old(m).id,
        ({
            let c = handing_out(packed, old(m).memory@, final(m).log@, old(m).log@.len() as int);
            &&& final(m).log@ == old(m).log@ + c.events
            &&& agrees(r, c.outcome)
        }),
{
    let ghost before = m.log@;
    let ghost memory = m.memory@;
    let (ptr, len): (u32, u32) = unpack(packed);
    let mut out: Vec<u8> = vec![0u8; len as usize];
    if len != 0 {
        match read(m, region, ptr, &mut out) {
            Ok(()) => {},
            Err(e) => {
                assert(m.log@ =~= before + handing_out(
                    packed,
                    memory,
                    m.log@,
                    before.len() as int,
                ).events);
                return Err(prefixed_access("memory read: ", &e));
            },
        }
    }
    match call(m, dealloc, (ptr, len)) {
        Ok(()) => {
            assert(m.log@ =~= before + handing_out(
                packed,
                memory,
                m.log@,
                before.len() as int,
            ).events);
            assert(len == 0 ==> out@ =~= Seq::<u8>::empty());
            Ok(out)
        },
        Err(e) => {
            assert(m.log@ =~= before + handing_out(
                packed,
                memory,
                m.log@,
                before.len() as int,
            ).events);
            Err(prefixed("plugin_dealloc: ", &e))
        },
    }
}

/// The words that a failed call of `name` is reported with, up to what went wrong.
fn label(name: &str) -> (r: String)
    ensures
        r@ == name@ + ": "@,
{
    let mut r = String::new();
    r.append(name);
    r.append(": ");
    assert(r@ =~= name@ + ": "@);
    r
}

/// Calls a function that takes one buffer.
fn run_one(
    m: &mut Machine,
    region: &Region,
    alloc: &Export<u32, u32>,
    dealloc: &Export<(u32, u32), ()>,
    f: &Export<(u32, u32), u64>,
    name: &str,
    bytes: &[u8],
) -> (r: Result<Vec<u8>, String>)
    requires
        region.owner == old(m).id,
        alloc.owner == old(m).id,
        alloc.name@ == "plugin_alloc"@,
        dealloc.owner == old(m).id,
        dealloc.name@ == "plugin_dealloc"@,
        f.owner == old(m).id,
        f.name@ == name@,
    ensures
        final(m).id == old(m).id,
        ({
            let c = calling_with_one(name@, bytes@, final(m).log@, old(m).log@.len() as int);
            &&& final(m).log@ == old(m).log@ + c.events
            &&& agrees(r, c.outcome)
        }),
{
    let ghost before = m.log@;
    let ghost k = before.len() as int;
    let (p, n): (u32, u32) = match host_to_wasm(m, region, alloc, bytes) {
        Ok(pair) => pair,
        Err(e) => {
            return Err(e);
        },
    };
    let ghost input = handing_in(bytes@, m.log@, k);
    let ghost j = k + input.events.len();
    let packed: u64 = match call(m, f, (p, n)) {
        Ok(v) => v,
        Err(e) => {
            assert(handing_in(bytes@, m.log@, k) == input);
            assert(m.log@ =~= before + calling_with_one(name@, bytes@, m.log@, k).events);
            return Err(prefixed(label(name).as_str(), &e));
        },
    };
    let _ = call(m, dealloc, (p, n));
    assert(handing_in(bytes@, m.log@, k) == input);
    let ghost called = call_at(name@, seq![p, n], m.log@, j);
    let ghost freed = call_at("plugin_dealloc"@, seq![p, n], m.log@, j + 1);
    assert(m.log@ =~= before + input.events.push(called).push(freed));
    let ghost so_far = m.log@;
    let ghost memory = m.memory@;
    assert(memory == memory_at(so_far, j + 1));
    let r = wasm_to_host(m, region, dealloc, packed);
    proof {
        assert(forall|i: int| 0 <= i < so_far.len() ==> m.log@[i] == so_far[i]);
        assert(handing_in(bytes@, m.log@, k) == input);
        assert(m.log@ =~= before + calling_with_one(name@, bytes@, m.log@, k).events);
    }
    r
}

/// Calls a function that takes two buffers.
fn run_two(
    m: &mut Machine,
    region: &Region,
    alloc: &Export<u32, u32>,
    dealloc: &Export<(u32, u32), ()>,
    f: &Export<(u32, u32, u32, u32), u64>,
    name: &str,
    first: &[u8],
    second: &[u8],
) -> (r: Result<Vec<u8>, String>)
    requires
        region.owner == old(m).id,
        alloc.owner == old(m).id,
        alloc.name@ == "plugin_alloc"@,
        dealloc.owner == old(m).id,
        dealloc.name@ == "plugin_dealloc"@,
        f.owner == old(m).id,
        f.name@ == name@,
    ensures
        final(m).id == old(m).id,
        ({
            let c = calling_with_two(
                name@,
                first@,
                second@,
                final(m).log@,
                old(m).log@.len() as int,
            );
            &&& final(m).log@ == old(m).log@ + c.events
            &&& agrees(r, c.outcome)
        }),
{
    let ghost before = m.log@;
    let ghost k = before.len() as int;
    let (p, n): (u32, u32) = match host_to_wasm(m, region, alloc, first) {
        Ok(pair) => pair,
        Err(e) => {
            return Err(e);
        },
    };
    let ghost one = handing_in(first@, m.log@, k);
    let ghost middle = k + one.events.len();
    let (q, l): (u32, u32) = match host_to_wasm(m, region, alloc, second) {
        Ok(pair) => pair,
        Err(e) => {
            assert(handing_in(first@, m.log@, k) == one);
            assert(m.log@ =~= before + calling_with_two(
                name@,
                first@,
                second@,
                m.log@,
                k,
            ).events);
            return Err(e);
        },
    };
    let ghost two = handing_in(second@, m.log@, middle);
    let ghost both = one.events + two.events;
    let ghost j = k + both.len();
    assert(handing_in(first@, m.log@, k) == one);
    assert(m.log@ =~= before + both);
    let packed: u64 = match call(m, f, (p, n, q, l)) {
        Ok(v) => v,
        Err(e) => {
            assert(handing_in(first@, m.log@, k) == one);
            assert(handing_in(second@, m.log@, middle) == two);
            assert(m.log@ =~= before + calling_with_two(
                name@,
                first@,
                second@,
                m.log@,
                k,
            ).events);
            return Err(prefixed(label(name).as_str(), &e));
        },
    };
    let _ = call(m, dealloc, (p, n));
    let _ = call(m, dealloc, (q, l));
    assert(handing_in(first@, m.log@, k) == one);
    assert(handing_in(second@, m.log@, middle) == two);
    let ghost called = call_at(name@, seq![p, n, q, l], m.log@, j);
    let ghost freed = call_at("plugin_dealloc"@, seq![p, n], m.log@, j + 1);
    let ghost freed_too = call_at("plugin_dealloc"@, seq![q, l], m.log@, j + 2);
    assert(m.log@ =~= before + both.push(called).push(freed).push(freed_too));
    let ghost so_far = m.log@;
    let ghost memory = m.memory@;
    assert(memory == memory_at(so_far, j + 2));
    let r = wasm_to_host(m, region, dealloc, packed);
    proof {
        assert(forall|i: int| 0 <= i < so_far.len() ==> m.log@[i] == so_far[i]);
        assert(handing_in(first@, m.log@, k) == one);
        assert(handing_in(second@, m.log@, middle) == two);
        assert(m.log@ =~= before + calling_with_two(name@, first@, second@, m.log@, k).events);
    }
    r
}

// ---------------------------------------------------------------------------
// The instance

/// The functions that a plugin exports, by name: how many words they take and how many bits they
/// return.
pub open spec fn abi() -> Seq<(Seq<char>, nat, nat)> {
    seq![
        ("plugin_alloc"@, 1, 32),
        ("plugin_dealloc"@, 2, 0),
        ("initial_state"@, 0, 64),
        ("apply_op"@, 4, 64),
        ("make_op"@, 4, 64),
        ("render"@, 2, 64),
        ("snapshot"@, 2, 64),
        ("load_snapshot"@, 2, 64),
    ]
}

/// Whether the module with these bytes exports the function at place `i`.
pub open spec fn exported(source: Seq<u8>, i: int) -> bool {
    exports_function(source, abi()[i].0, abi()[i].1, abi()[i].2)
}

/// Whether the function at place `i` is the first that the module with these bytes lacks.
pub open spec fn first_missing(source: Seq<u8>, i: int) -> bool {
    &&& 0 <= i < abi().len()
    &&& !exported(source, i)
    &&& forall|j: int| 0 <= j < i ==> exported(source, j)
}

/// What is wrong with a plugin that was started: it exports no memory, or lacks a function.
pub open spec fn flaw(source: Seq<u8>) -> Option<Words> {
    if !exports_memory(source, "memory"@) {
        Some(Words::Whole("plugin exports no `memory`"@))
    } else if exists|i: int| first_missing(source, i) {
        let i = choose|i: int| first_missing(source, i);
        Some(Words::Start("export `"@ + abi()[i].0 + "`: "@))
    } else {
        None
    }
}

/// A plugin that runs: the module that was admitted, started, with its functions at hand.
pub struct PluginInstance {
    machine: Machine,
    memory: Region,
    alloc: Export<u32, u32>,
    dealloc: Export<(u32, u32), ()>,
    initial_state: Export<(), u64>,
    apply_op: Export<(u32, u32, u32, u32), u64>,
    make_op: Export<(u32, u32, u32, u32), u64>,
    render: Export<(u32, u32), u64>,
    snapshot: Export<(u32, u32), u64>,
    load_snapshot: Export<(u32, u32), u64>,
    source: Ghost<Seq<u8>>,
}

/// The text for a function that is missing.
fn missing(name: &str, e: &wasmtime::Error) -> (r: String)
    ensures
        text::starts_with(r@, "export `"@ + name@ + "`: "@),
{
    let mut r = String::new();
    r.append("export `");
    r.append(name);
    r.append("`: ");
    let ghost prefix = "export `"@ + name@ + "`: "@;
    assert(r@ =~= prefix);
    r.append(error_text(e).as_str());
    assert(r@.take(prefix.len() as int) =~= prefix);
    r
}

/// There is at most one first function that is missing.
proof fn lemma_first_missing(source: Seq<u8>, i: int)
    requires
        first_missing(source, i),
        exports_memory(source, "memory"@),
    ensures
        flaw(source) == Some(Words::Start("export `"@ + abi()[i].0 + "`: "@)),
{
    let j = choose|j: int| first_missing(source, j);
    if i < j {
        assert(exported(source, i));
    } else if j < i {
        assert(exported(source, j));
    }
}

impl PluginInstance {
    /// Its functions and its memory are those of the module that runs in its store.
    pub closed spec fn wf(&self) -> bool {
        &&& self.memory.owner == self.machine.id
        &&& self.alloc.owner == self.machine.id
        &&& self.alloc.name@ == "plugin_alloc"@
        &&& self.dealloc.owner == self.machine.id
        &&& self.dealloc.name@ == "plugin_dealloc"@
        &&& self.initial_state.owner == self.machine.id
        &&& self.initial_state.name@ == "initial_state"@
        &&& self.apply_op.owner == self.machine.id
        &&& self.apply_op.name@ == "apply_op"@
        &&& self.make_op.owner == self.machine.id
        &&& self.make_op.name@ == "make_op"@
        &&& self.render.owner == self.machine.id
        &&& self.render.name@ == "render"@
        &&& self.snapshot.owner == self.machine.id
        &&& self.snapshot.name@ == "snapshot"@
        &&& self.load_snapshot.owner == self.machine.id
        &&& self.load_snapshot.name@ == "load_snapshot"@
    }

    /// The bytes of the module that runs.
    pub closed spec fn source(&self) -> Seq<u8> {
        self.source@
    }

    /// What the host has done to the plugin.
    pub closed spec fn log(&self) -> Seq<Event> {
        self.machine.log@
    }

    /// Takes a module that was started, with its memory and its functions.
    fn bind(machine: Machine, started: Result<Linked, wasmtime::Error>) -> (r: Result<
        Self,
        String,
    >)
        requires
            started matches Ok(l) ==> l.owner == machine.id,
        ensures
            match started {
                Err(_) => r matches Err(e) && told(e@, Words::Start("instantiate: "@)),
                Ok(l) => match (flaw(l.source@), r) {
                    (None, Ok(p)) => p.wf() && p.source() == l.source@ && p.log() == machine.log@,
                    (Some(words), Err(e)) => told(e@, words),
                    _ => false,
                },
            },
    {
        let mut m = machine;
        let linked = match started {
            Ok(l) => l,
            Err(e) => {
                return Err(prefixed("instantiate: ", &e));
            },
        };
        let ghost source = linked.source@;
        let memory = match find_memory(&mut m, &linked, "memory") {
            Some(region) => region,
            None => {
                return Err("plugin exports no `memory`".to_owned());
            },
        };
        assert(abi().len() == 8);
        let alloc = match find_function::<u32, u32>(&mut m, &linked, "plugin_alloc") {
            Ok(f) => f,
            Err(e) => {
                proof {
                    assert(first_missing(source, 0));
                    lemma_first_missing(source, 0);
                }
                return Err(missing("plugin_alloc", &e));
            },
        };
        assert(exported(source, 0));
        let dealloc = match find_function::<(u32, u32), ()>(&mut m, &linked, "plugin_dealloc") {
            Ok(f) => f,
            Err(e) => {
                proof {
                    assert(first_missing(source, 1));
                    lemma_first_missing(source, 1);
                }
                return Err(missing("plugin_dealloc", &e));
            },
        };
        assert(exported(source, 1));
        let initial_state = match find_function::<(), u64>(&mut m, &linked, "initial_state") {
            Ok(f) => f,
            Err(e) => {
                proof {
                    assert(first_missing(source, 2));
                    lemma_first_missing(source, 2);
                }
                return Err(missing("initial_state", &e));
            },
        };
        assert(exported(source, 2));
        let apply_op = match find_function::<(u32, u32, u32, u32), u64>(&mut m, &linked, "apply_op") {
            Ok(f) => f,
            Err(e) => {
                proof {
                    assert(first_missing(source, 3));
                    lemma_first_missing(source, 3);
                }
                return Err(missing("apply_op", &e));
            },
        };
        assert(exported(source, 3));
        let make_op = match find_function::<(u32, u32, u32, u32), u64>(&mut m, &linked, "make_op") {
            Ok(f) => f,
            Err(e) => {
                proof {
                    assert(first_missing(source, 4));
                    lemma_first_missing(source, 4);
                }
                return Err(missing("make_op", &e));
            },
        };
        assert(exported(source, 4));
        let render = match find_function::<(u32, u32), u64>(&mut m, &linked, "render") {
            Ok(f) => f,
            Err(e) => {
                proof {
                    assert(first_missing(source, 5));
                    lemma_first_missing(source, 5);
                }
                return Err(missing("render", &e));
            },
        };
        assert(exported(source, 5));
        let snapshot = match find_function::<(u32, u32), u64>(&mut m, &linked, "snapshot") {
            Ok(f) => f,
            Err(e) => {
                proof {
                    assert(first_missing(source, 6));
                    lemma_first_missing(source, 6);
                }
                return Err(missing("snapshot", &e));
            },
        };
        assert(exported(source, 6));
        let load_snapshot = match find_function::<(u32, u32), u64>(&mut m, &linked, "load_snapshot") {
            Ok(f) => f,
            Err(e) => {
                proof {
                    assert(first_missing(source, 7));
                    lemma_first_missing(source, 7);
                }
                return Err(missing("load_snapshot", &e));
            },
        };
        assert(exported(source, 7));
        Ok(
            PluginInstance {
                machine: m,
                memory,
                alloc,
                dealloc,
                initial_state,
                apply_op,
                make_op,
                render,
                snapshot,
                load_snapshot,
                source: Ghost(source),
            },
        )
    }

    /// Starts a plugin that was admitted, and looks up its memory and its functions. A
    /// plugin that lacks one of them is an error of its author, which has nothing to do with
    /// trust.
    ///
    /// What is started has always been verified: its key is usable and verifies its signature over
    /// exactly the bytes that it was compiled from. Whether the start itself works is up to
    /// wasmtime and the plugin.
    pub fn new(engine: &wasmtime::Engine, module: &PluginModule) -> (r: Result<Self, String>)
        ensures
            key_usable(module.key()),
            verifies(module.key(), module.source(), module.signature()),
            match r {
                Ok(p) => {
                    &&& p.wf()
                    &&& flaw(module.source()) is None
                    &&& p.source() == module.source()
                    &&& p.log() == seq![Event::Started { source: module.source(), ok: true }]
                },
                Err(e) => told(e@, Words::Start("instantiate: "@)) || (flaw(
                    module.source(),
                ) matches Some(words) && told(e@, words)),
            },
    {
        proof {
            use_type_invariant(module);
        }
        let mut m = new_machine(engine);
        let started = start(&mut m, &module.compiled);
        Self::bind(m, started)
    }

    /// The state of an empty document.
    pub fn initial_state(&mut self) -> (r: Result<Vec<u8>, String>)
        requires
            old(self).wf(),
        ensures
            final(self).wf(),
            final(self).source() == old(self).source(),
            ({
                let c = calling_with_none(
                    "initial_state"@,
                    final(self).log(),
                    old(self).log().len() as int,
                );
                &&& final(self).log() == old(self).log() + c.events
                &&& agrees(r, c.outcome)
            }),
    {
        let ghost before = self.machine.log@;
        let ghost k = before.len() as int;
        let packed: u64 = match call(&mut self.machine, &self.initial_state, ()) {
            Ok(v) => v,
            Err(e) => {
                assert(self.log() =~= before + calling_with_none(
                    "initial_state"@,
                    self.log(),
                    k,
                ).events);
                return Err(prefixed(label("initial_state").as_str(), &e));
            },
        };
        let r = wasm_to_host(&mut self.machine, &self.memory, &self.dealloc, packed);
        assert(self.log() =~= before + calling_with_none("initial_state"@, self.log(), k).events);
        r
    }

    /// The state after an operation.
    pub fn apply_op(&mut self, state: &[u8], op: &[u8]) -> (r: Result<Vec<u8>, String>)
        requires
            old(self).wf(),
        ensures
            final(self).wf(),
            final(self).source() == old(self).source(),
            ({
                let c = calling_with_two(
                    "apply_op"@,
                    state@,
                    op@,
                    final(self).log(),
                    old(self).log().len() as int,
                );
                &&& final(self).log() == old(self).log() + c.events
                &&& agrees(r, c.outcome)
            }),
    {
        run_two(
            &mut self.machine,
            &self.memory,
            &self.alloc,
            &self.dealloc,
            &self.apply_op,
            "apply_op",
            state,
            op,
        )
    }

    /// The operation that an action of the user comes to.
    pub fn make_op(&mut self, state: &[u8], action: &[u8]) -> (r: Result<Vec<u8>, String>)
        requires
            old(self).wf(),
        ensures
            final(self).wf(),
            final(self).source() == old(self).source(),
            ({
                let c = calling_with_two(
                    "make_op"@,
                    state@,
                    action@,
                    final(self).log(),
                    old(self).log().len() as int,
                );
                &&& final(self).log() == old(self).log() + c.events
                &&& agrees(r, c.outcome)
            }),
    {
        run_two(
            &mut self.machine,
            &self.memory,
            &self.alloc,
            &self.dealloc,
            &self.make_op,
            "make_op",
            state,
            action,
        )
    }

    /// What the user sees of a state.
    pub fn render(&mut self, state: &[u8]) -> (r: Result<Vec<u8>, String>)
        requires
            old(self).wf(),
        ensures
            final(self).wf(),
            final(self).source() == old(self).source(),
            ({
                let c = calling_with_one(
                    "render"@,
                    state@,
                    final(self).log(),
                    old(self).log().len() as int,
                );
                &&& final(self).log() == old(self).log() + c.events
                &&& agrees(r, c.outcome)
            }),
    {
        run_one(
            &mut self.machine,
            &self.memory,
            &self.alloc,
            &self.dealloc,
            &self.render,
            "render",
            state,
        )
    }

    /// A state, to be kept.
    pub fn snapshot(&mut self, state: &[u8]) -> (r: Result<Vec<u8>, String>)
        requires
            old(self).wf(),
        ensures
            final(self).wf(),
            final(self).source() == old(self).source(),
            ({
                let c = calling_with_one(
                    "snapshot"@,
                    state@,
                    final(self).log(),
                    old(self).log().len() as int,
                );
                &&& final(self).log() == old(self).log() + c.events
                &&& agrees(r, c.outcome)
            }),
    {
        run_one(
            &mut self.machine,
            &self.memory,
            &self.alloc,
            &self.dealloc,
            &self.snapshot,
            "snapshot",
            state,
        )
    }

    /// The state that was kept.
    pub fn load_snapshot(&mut self, bytes: &[u8]) -> (r: Result<Vec<u8>, String>)
        requires
            old(self).wf(),
        ensures
            final(self).wf(),
            final(self).source() == old(self).source(),
            ({
                let c = calling_with_one(
                    "load_snapshot"@,
                    bytes@,
                    final(self).log(),
                    old(self).log().len() as int,
                );
                &&& final(self).log() == old(self).log() + c.events
                &&& agrees(r, c.outcome)
            }),
    {
        run_one(
            &mut self.machine,
            &self.memory,
            &self.alloc,
            &self.dealloc,
            &self.load_snapshot,
            "load_snapshot",
            bytes,
        )
    }
}

// ---------------------------------------------------------------------------
// Keys in hexadecimal

/// The value of a hexadecimal digit.
pub open spec fn hex_digit(c: u8) -> Option<int> {
    if 48 <= c <= 57 {
        Some(c - 48)
    } else if 97 <= c <= 102 {
        Some(c - 87)
    } else if 65 <= c <= 70 {
        Some(c - 55)
    } else {
        None
    }
}

/// The value of two bytes of text, where both are digits.
pub open spec fn pair_value(a: u8, b: u8) -> Option<int> {
    match (hex_digit(a), hex_digit(b)) {
        (Some(x), Some(y)) => Some(x * 16 + y),
        _ => None,
    }
}

/// The value of the pair at place `i`.
pub open spec fn pair_at(bytes: Seq<u8>, i: int) -> Option<int> {
    pair_value(bytes[2 * i], bytes[2 * i + 1])
}

/// Whether the pair at place `i` is the first that has no value.
pub open spec fn first_bad(bytes: Seq<u8>, i: int) -> bool {
    &&& 0 <= i < 32
    &&& pair_at(bytes, i) is None
    &&& forall|j: int| 0 <= j < i ==> pair_at(bytes, j) is Some
}

/// The UTF-8 of a text without the white space around it.
pub open spec fn trimmed_bytes(s: Seq<char>) -> Seq<u8> {
    utf8::encode_utf8(text::trim(s))
}

/// What a text of 64 hexadecimal digits comes to: 32 bytes, or why it is no such text.
pub open spec fn key_of(s: Seq<char>) -> Result<Seq<u8>, Seq<char>> {
    let b = trimmed_bytes(s);
    if b.len() != 64 {
        Err("expected 64 hex chars, got "@ + text::decimal(b.len()))
    } else if exists|i: int| first_bad(b, i) {
        let i = choose|i: int| first_bad(b, i);
        Err(
            "bad hex at "@ + text::decimal(i as nat) + ": "@
                + "invalid digit found in string"@,
        )
    } else {
        Ok(Seq::new(32, |i: int| pair_at(b, i)->0 as u8))
    }
}

fn digit(c: u8) -> (r: Option<u8>)
    ensures
        match r {
            Some(v) => hex_digit(c) == Some(v as int) && v < 16,
            None => hex_digit(c) is None,
        },
{
    if 48 <= c && c <= 57 {
        Some(c - 48)
    } else if 97 <= c && c <= 102 {
        Some(c - 87)
    } else if 65 <= c && c <= 70 {
        Some(c - 55)
    } else {
        None
    }
}

fn pair(a: u8, b: u8) -> (r: Option<u8>)
    ensures
        match r {
            Some(v) => pair_value(a, b) == Some(v as int),
            None => pair_value(a, b) is None,
        },
{
    match (digit(a), digit(b)) {
        (Some(x), Some(y)) => Some(x * 16 + y),
        _ => None,
    }
}

/// Reads a public key from its 64 hexadecimal digits, with white space allowed around them.
pub fn hex_to_key(hex: &str) -> (r: Result<[u8; 32], String>)
    ensures
        match (r, key_of(hex@)) {
            (Ok(k), Ok(bytes)) => k@ == bytes,
            (Err(e), Err(message)) => e@ == message,
            _ => false,
        },
{
    let chars = chars_of(hex);
    let text = string_of(trimmed(chars.as_slice()));
    let b = text.as_str().as_bytes();
    let ghost bytes = trimmed_bytes(hex@);
    assert(b@ == bytes);
    if b.len() != 64 {
        let mut e = String::new();
        e.append("expected 64 hex chars, got ");
        e.append(decimal_string(b.len() as u64).as_str());
        assert(e@ =~= "expected 64 hex chars, got "@ + text::decimal(bytes.len()));
        return Err(e);
    }
    let mut out: [u8; 32] = [0u8;32];
    let mut i: usize = 0;
    while i < 32
        invariant
            i <= 32,
            b@ == bytes,
            bytes.len() == 64,
            bytes == trimmed_bytes(hex@),
            forall|j: int|
                0 <= j < i ==> #[trigger] pair_at(bytes, j) is Some && out@[j] == pair_at(
                    bytes,
                    j,
                )->0,
        decreases 32 - i,
    {
        match pair(b[2 * i], b[2 * i + 1]) {
            Some(v) => {
                out[i] = v;
                assert(pair_at(bytes, i as int) == Some(v as int));
            },
            None => {
                let mut e = String::new();
                e.append("bad hex at ");
                e.append(decimal_string(i as u64).as_str());
                e.append(": ");
                e.append("invalid digit found in string");
                proof {
                    assert(first_bad(bytes, i as int));
                    let j = choose|j: int| first_bad(bytes, j);
                    if j < i {
                        assert(pair_at(bytes, j) is Some);
                    } else if i < j {
                        assert(pair_at(bytes, i as int) is Some);
                    }
                }
                assert(e@ =~= "bad hex at "@ + text::decimal(i as nat) + ": "@
                    + "invalid digit found in string"@);
                return Err(e);
            },
        }
        i += 1;
    }
    assert(out@ =~= Seq::new(32, |i: int| pair_at(bytes, i)->0 as u8));
    assert forall|j: int| !first_bad(bytes, j) by {
        if 0 <= j < 32 {
            assert(pair_at(bytes, j) is Some);
        }
    }
    Ok(out)
}

/// The value of a hexadecimal digit, as a character.
pub open spec fn digit_value(c: char) -> Option<int> {
    if '0' <= c <= '9' {
        Some(c as int - '0' as int)
    } else if 'a' <= c <= 'f' {
        Some(c as int - 'a' as int + 10)
    } else if 'A' <= c <= 'F' {
        Some(c as int - 'A' as int + 10)
    } else {
        None
    }
}

/// Whether two digits write this byte in hexadecimal, the higher one first, a letter in either case.
pub open spec fn writes(high: char, low: char, byte: u8) -> bool {
    digit_value(high) == Some((byte / 16) as int) && digit_value(low) == Some((byte % 16) as int)
}

/// Whether `digits` write these bytes in hexadecimal, two digits each.
pub open spec fn is_hex_of(digits: Seq<char>, bytes: Seq<u8>) -> bool {
    &&& digits.len() == 2 * bytes.len()
    &&& forall|i: int|
        0 <= i < bytes.len() ==> #[trigger] writes(digits[2 * i], digits[2 * i + 1], bytes[i])
}

/// The hexadecimal of a key gives the key back, in either case and with any white space around it.
pub proof fn keys_read_back(before: Seq<char>, digits: Seq<char>, behind: Seq<char>, key: Seq<u8>)
    requires
        key.len() == 32,
        is_hex_of(digits, key),
        forall|i: int| 0 <= i < before.len() ==> text::is_space(#[trigger] before[i]),
        forall|i: int| 0 <= i < behind.len() ==> text::is_space(#[trigger] behind[i]),
    ensures
        key_of(before + digits + behind) == Ok::<Seq<u8>, Seq<char>>(key),
{
    assert forall|i: int| 0 <= i < 64 implies digit_value(#[trigger] digits[i]) is Some by {
        let k = i / 2;
        assert(writes(digits[2 * k], digits[2 * k + 1], key[k]));
        assert(i == 2 * k || i == 2 * k + 1);
    }
    assert(digit_value(digits[0]) is Some && digit_value(digits[63]) is Some);
    text::lemma_trim_between(before, digits, behind);
    assert(utf8::is_ascii_chars(digits));
    utf8::is_ascii_chars_encode_utf8(digits);
    let b = utf8::encode_utf8(digits);
    assert forall|i: int| 0 <= i < 32 implies #[trigger] pair_at(b, i) == Some(key[i] as int) by {
        assert(digits[2 * i] as u8 == b[2 * i]);
        assert(digits[2 * i + 1] as u8 == b[2 * i + 1]);
        assert(writes(digits[2 * i], digits[2 * i + 1], key[i]));
    }
    assert forall|i: int| !first_bad(b, i) by {
        if 0 <= i < 32 {
            assert(pair_at(b, i) is Some);
        }
    }
    assert(key_of(before + digits + behind)->Ok_0 =~= key);
}

/// Where no pair is bad, the bytes are digits.
proof fn lemma_pairs_are_digits(b: Seq<u8>, n: int)
    requires
        b.len() == 64,
        forall|i: int| !first_bad(b, i),
        0 <= n <= 32,
    ensures
        forall|i: int| 0 <= i < n ==> #[trigger] pair_at(b, i) is Some,
        forall|i: int| 0 <= i < 2 * n ==> hex_digit(#[trigger] b[i]) is Some,
    decreases n,
{
    if n > 0 {
        lemma_pairs_are_digits(b, n - 1);
        assert(!first_bad(b, n - 1));
    }
}

/// Only 64 hexadecimal digits are a key, with any white space around them.
pub proof fn only_digits_are_keys(s: Seq<char>)
    ensures
        key_of(s) is Ok <==> text::trim(s).len() == 64 && forall|i: int|
            0 <= i < 64 ==> digit_value(#[trigger] text::trim(s)[i]) is Some,
{
    let t = text::trim(s);
    let b = utf8::encode_utf8(t);
    if t.len() == 64 && forall|i: int| 0 <= i < 64 ==> digit_value(#[trigger] t[i]) is Some {
        assert forall|i: int| 0 <= i < t.len() implies '\0' <= #[trigger] t[i] <= '\u{7f}' by {
            assert(digit_value(t[i]) is Some);
        }
        utf8::is_ascii_chars_encode_utf8(t);
        assert forall|i: int| !first_bad(b, i) by {
            if 0 <= i < 32 {
                assert(t[2 * i] as u8 == b[2 * i] && t[2 * i + 1] as u8 == b[2 * i + 1]);
                assert(digit_value(t[2 * i]) is Some && digit_value(t[2 * i + 1]) is Some);
            }
        }
    }
    if key_of(s) is Ok {
        lemma_pairs_are_digits(b, 32);
        text::lemma_ascii_bytes(t);
        utf8::is_ascii_chars_encode_utf8(t);
        assert forall|i: int| 0 <= i < 64 implies digit_value(#[trigger] t[i]) is Some by {
            assert(t[i] as u8 == b[i]);
            assert(hex_digit(b[i]) is Some);
        }
    }
}

// ---------------------------------------------------------------------------
// What the calls are for

/// A packed value is the place in its high half and the length in its low half.
proof fn lemma_halves(packed: u64)
    ensures
        (packed >> 32) as u32 == packed / 0x1_0000_0000,
        (packed & 0xFFFF_FFFF) as u32 == packed % 0x1_0000_0000,
{
    assert((packed >> 32) as u32 == packed / 0x1_0000_0000 && (packed & 0xFFFF_FFFF) as u32
        == packed % 0x1_0000_0000) by (bit_vector);
}

/// Whether the call at place `k` of a record returned `v`.
pub open spec fn returned_at(log: Seq<Event>, k: int, v: u64) -> bool {
    log[k] matches Event::Called { result: Some(r), .. } && r == v
}

/// Whether the call at place `k` of a record did not return.
pub open spec fn trapped_at(log: Seq<Event>, k: int) -> bool {
    log[k] matches Event::Called { result: None, .. }
}

/// Whether the call at place `k` of a record was one of `name` with these arguments.
pub open spec fn called_at(log: Seq<Event>, k: int, name: Seq<char>, args: Seq<u32>) -> bool {
    log[k] matches Event::Called { name: n, args: a, .. } && n == name && a == args
}

/// Whether a result is these bytes of a memory, `len` of them from `at` on, each in its place.
pub open spec fn holds_bytes(r: Result<Vec<u8>, String>, memory: Seq<u8>, at: int, len: int) -> bool {
    r matches Ok(v) && v@.len() == len && forall|i: int| 0 <= i < len ==> #[trigger] v@[i]
        == memory[at + i]
}

/// What a plugin hands out is what the host gets: where the place and the length that a call
/// returned lie inside the memory and freeing works, the result is every byte from that place on,
/// as many as the length says. Where they do not lie inside, or freeing fails, it is an error that
/// says so, and never a part of the bytes.
proof fn lemma_handed_out(
    r: Result<Vec<u8>, String>,
    packed: u64,
    memory: Seq<u8>,
    log: Seq<Event>,
    k: int,
)
    requires
        agrees(r, handing_out(packed, memory, log, k).outcome),
    ensures
        ({
            let at = (packed / 0x1_0000_0000) as int;
            let len = (packed % 0x1_0000_0000) as int;
            &&& (len == 0 || at + len <= memory.len()) && (exists|v: u64| returned_at(log, k, v))
                ==> holds_bytes(r, memory, at, len)
            &&& (len == 0 || at + len <= memory.len()) && trapped_at(log, k) ==> (r matches Err(e)
                && text::starts_with(e@, "plugin_dealloc: "@))
            &&& len != 0 && at + len > memory.len() ==> (r matches Err(e) && e@ == "memory read: "@
                + "out of bounds memory access"@)
        }),
{
    lemma_halves(packed);
    if exists|v: u64| returned_at(log, k, v) {
        let v = choose|v: u64| returned_at(log, k, v);
        assert(result_at(log, k) == Some(v));
    }
}

/// A call without arguments, from the record: its result is what the function handed out, whole.
pub proof fn plain_calls_give_what_was_handed_out(
    name: Seq<char>,
    before: Seq<Event>,
    log: Seq<Event>,
    r: Result<Vec<u8>, String>,
    packed: u64,
)
    requires
        log == before + calling_with_none(name, log, before.len() as int).events,
        agrees(r, calling_with_none(name, log, before.len() as int).outcome),
    ensures
        ({
            let k = before.len() as int;
            let at = (packed / 0x1_0000_0000) as int;
            let len = (packed % 0x1_0000_0000) as int;
            &&& called_at(log, k, name, Seq::empty())
            &&& trapped_at(log, k) ==> log.len() == k + 1 && (r matches Err(e) && text::starts_with(
                e@,
                name + ": "@,
            ))
            &&& returned_at(log, k, packed) ==> {
                let memory = log[k]->memory;
                if len == 0 || at + len <= memory.len() {
                    &&& log.len() == k + 2
                    &&& called_at(log, k + 1, "plugin_dealloc"@, seq![at as u32, len as u32])
                    &&& trapped_at(log, k + 1) ==> r is Err
                    &&& !trapped_at(log, k + 1) ==> holds_bytes(r, memory, at, len)
                } else {
                    &&& log.len() == k + 1
                    &&& r matches Err(e) && e@ == "memory read: "@ + "out of bounds memory access"@
                }
            }
        }),
{
    let k = before.len() as int;
    let c = calling_with_none(name, log, k);
    assert(log[k] == c.events[0]);
    if returned_at(log, k, packed) {
        lemma_halves(packed);
        lemma_handed_out(r, packed, log[k]->memory, log, k + 1);
        let out = handing_out(packed, log[k]->memory, log, k + 1);
        if out.events.len() > 0 {
            assert(log[k + 1] == out.events[0]);
            if !trapped_at(log, k + 1) {
                let v = result_at(log, k + 1)->0;
                assert(returned_at(log, k + 1, v));
            }
        }
    }
}

/// Handing bytes in, from the record: a buffer of their length is asked for, and every byte is
/// written to it.
proof fn lemma_handed_in(bytes: Seq<u8>, log: Seq<Event>, k: int, front: Seq<Event>, back: Seq<Event>)
    requires
        front.len() == k,
        log == front + handing_in(bytes, log, k).events + back,
    ensures
        called_at(log, k, "plugin_alloc"@, seq![bytes.len() as u32]),
        forall|p: u64| #[trigger]
            returned_at(log, k, p) ==> log[k + 1] == (Event::Wrote {
                at: p as u32,
                bytes,
                fits: p as u32 + bytes.len() <= log[k]->memory.len(),
            }),
{
    let c = handing_in(bytes, log, k);
    assert(log[k] == c.events[0]);
    if c.events.len() > 1 {
        assert(log[k + 1] == c.events[1]);
    }
}

/// A call with one buffer, from the record: every byte of the input is written to a buffer of its
/// length, the function is given that buffer, and its result is what it handed out, whole. Where a
/// step fails, the result is an error that says which, and nothing comes behind it.
pub proof fn calls_with_one_buffer_pass_every_byte(
    name: Seq<char>,
    bytes: Seq<u8>,
    before: Seq<Event>,
    log: Seq<Event>,
    r: Result<Vec<u8>, String>,
    place: u32,
    packed: u64,
)
    requires
        log == before + calling_with_one(name, bytes, log, before.len() as int).events,
        agrees(r, calling_with_one(name, bytes, log, before.len() as int).outcome),
    ensures
        ({
            let k = before.len() as int;
            let at = (packed / 0x1_0000_0000) as int;
            let len = (packed % 0x1_0000_0000) as int;
            let size = bytes.len() as u32;
            &&& called_at(log, k, "plugin_alloc"@, seq![size])
            &&& trapped_at(log, k) ==> log.len() == k + 1 && (r matches Err(e) && text::starts_with(
                e@,
                "plugin_alloc: "@,
            ))
            &&& returned_at(log, k, place as u64) ==> {
                let fits = place + bytes.len() <= log[k]->memory.len();
                &&& log[k + 1] == (Event::Wrote { at: place, bytes, fits })
                &&& !fits ==> log.len() == k + 2 && (r matches Err(e) && e@ == "memory write: "@
                    + "out of bounds memory access"@)
                &&& fits ==> {
                    &&& called_at(log, k + 2, name, seq![place, size])
                    &&& trapped_at(log, k + 2) ==> log.len() == k + 3 && (r matches Err(e)
                        && text::starts_with(e@, name + ": "@))
                    &&& returned_at(log, k + 2, packed) ==> {
                        let memory = log[k + 3]->memory;
                        &&& called_at(log, k + 3, "plugin_dealloc"@, seq![place, size])
                        &&& if len == 0 || at + len <= memory.len() {
                            &&& log.len() == k + 5
                            &&& called_at(
                                log,
                                k + 4,
                                "plugin_dealloc"@,
                                seq![at as u32, len as u32],
                            )
                            &&& trapped_at(log, k + 4) ==> r is Err
                            &&& !trapped_at(log, k + 4) ==> holds_bytes(r, memory, at, len)
                        } else {
                            &&& log.len() == k + 4
                            &&& r matches Err(e) && e@ == "memory read: "@
                                + "out of bounds memory access"@
                        }
                    }
                }
            }
        }),
{
    let k = before.len() as int;
    let c = calling_with_one(name, bytes, log, k);
    let input = handing_in(bytes, log, k);
    let back = c.events.skip(input.events.len() as int);
    assert(c.events =~= input.events + back);
    assert(log =~= before + input.events + back);
    lemma_handed_in(bytes, log, k, before, back);
    if returned_at(log, k, place as u64) {
        assert(result_at(log, k) == Some(place as u64));
        if place + bytes.len() <= log[k]->memory.len() {
            assert(log[k + 2] == c.events[2]);
            if returned_at(log, k + 2, packed) {
                assert(log[k + 3] == c.events[3]);
                lemma_halves(packed);
                lemma_handed_out(r, packed, log[k + 3]->memory, log, k + 4);
                let out = handing_out(packed, log[k + 3]->memory, log, k + 4);
                assert(c.events.len() == 4 + out.events.len());
                if out.events.len() > 0 {
                    assert(log[k + 4] == c.events[4]);
                    assert(c.events[4] == out.events[0]);
                    if !trapped_at(log, k + 4) {
                        let v = result_at(log, k + 4)->0;
                        assert(returned_at(log, k + 4, v));
                    }
                }
            }
        }
    }
}

/// A call with two buffers, from the record: every byte of both inputs is written, each to a buffer
/// of its length, the function is given both buffers in order, and its result is what it handed
/// out, whole. Where a step fails, the result is an error that says which, and nothing comes behind
/// it.
pub proof fn calls_with_two_buffers_pass_every_byte(
    name: Seq<char>,
    first: Seq<u8>,
    second: Seq<u8>,
    before: Seq<Event>,
    log: Seq<Event>,
    r: Result<Vec<u8>, String>,
    one: u32,
    two: u32,
    packed: u64,
)
    requires
        log == before + calling_with_two(name, first, second, log, before.len() as int).events,
        agrees(r, calling_with_two(name, first, second, log, before.len() as int).outcome),
    ensures
        ({
            let k = before.len() as int;
            let at = (packed / 0x1_0000_0000) as int;
            let len = (packed % 0x1_0000_0000) as int;
            let n = first.len() as u32;
            let m = second.len() as u32;
            &&& called_at(log, k, "plugin_alloc"@, seq![n])
            &&& trapped_at(log, k) ==> log.len() == k + 1 && (r matches Err(e) && text::starts_with(
                e@,
                "plugin_alloc: "@,
            ))
            &&& returned_at(log, k, one as u64) ==> {
                let fits = one + first.len() <= log[k]->memory.len();
                &&& log[k + 1] == (Event::Wrote { at: one, bytes: first, fits })
                &&& !fits ==> log.len() == k + 2 && (r matches Err(e) && e@ == "memory write: "@
                    + "out of bounds memory access"@)
                &&& fits ==> {
                    &&& called_at(log, k + 2, "plugin_alloc"@, seq![m])
                    &&& trapped_at(log, k + 2) ==> log.len() == k + 3 && (r matches Err(e)
                        && text::starts_with(e@, "plugin_alloc: "@))
                    &&& returned_at(log, k + 2, two as u64) ==> {
                        let fits_too = two + second.len() <= log[k + 2]->memory.len();
                        &&& log[k + 3] == (Event::Wrote { at: two, bytes: second, fits: fits_too })
                        &&& !fits_too ==> log.len() == k + 4 && (r matches Err(e) && e@
                            == "memory write: "@ + "out of bounds memory access"@)
                        &&& fits_too ==> {
                            &&& called_at(log, k + 4, name, seq![one, n, two, m])
                            &&& trapped_at(log, k + 4) ==> log.len() == k + 5 && (r matches Err(e)
                                && text::starts_with(e@, name + ": "@))
                            &&& returned_at(log, k + 4, packed) ==> {
                                let memory = log[k + 6]->memory;
                                &&& called_at(log, k + 5, "plugin_dealloc"@, seq![one, n])
                                &&& called_at(log, k + 6, "plugin_dealloc"@, seq![two, m])
                                &&& if len == 0 || at + len <= memory.len() {
                                    &&& log.len() == k + 8
                                    &&& called_at(
                                        log,
                                        k + 7,
                                        "plugin_dealloc"@,
                                        seq![at as u32, len as u32],
                                    )
                                    &&& trapped_at(log, k + 7) ==> r is Err
                                    &&& !trapped_at(log, k + 7) ==> holds_bytes(r, memory, at, len)
                                } else {
                                    &&& log.len() == k + 7
                                    &&& r matches Err(e) && e@ == "memory read: "@
                                        + "out of bounds memory access"@
                                }
                            }
                        }
                    }
                }
            }
        }),
{
    let k = before.len() as int;
    let c = calling_with_two(name, first, second, log, k);
    let a = handing_in(first, log, k);
    let back = c.events.skip(a.events.len() as int);
    assert(c.events =~= a.events + back);
    assert(log =~= before + a.events + back);
    lemma_handed_in(first, log, k, before, back);
    if returned_at(log, k, one as u64) && one + first.len() <= log[k]->memory.len() {
        assert(a.events.len() == 2);
        let b = handing_in(second, log, k + 2);
        let tail = back.skip(b.events.len() as int);
        assert(back =~= b.events + tail);
        assert(log =~= (before + a.events) + b.events + tail);
        lemma_handed_in(second, log, k + 2, before + a.events, tail);
        if returned_at(log, k + 2, two as u64) && two + second.len() <= log[k + 2]->memory.len() {
            assert(b.events.len() == 2);
            assert(log[k + 4] == c.events[4]);
            if returned_at(log, k + 4, packed) {
                assert(log[k + 5] == c.events[5]);
                assert(log[k + 6] == c.events[6]);
                lemma_halves(packed);
                lemma_handed_out(r, packed, log[k + 6]->memory, log, k + 7);
                let out = handing_out(packed, log[k + 6]->memory, log, k + 7);
                assert(c.events.len() == 7 + out.events.len());
                if out.events.len() > 0 {
                    assert(log[k + 7] == c.events[7]);
                    assert(c.events[7] == out.events[0]);
                    if !trapped_at(log, k + 7) {
                        let v = result_at(log, k + 7)->0;
                        assert(returned_at(log, k + 7, v));
                    }
                }
            }
        }
    }
}

/// A plugin has no flaw exactly where it exports a memory and each of the eight functions with the
/// words that it takes and the bits that it returns; and where there is no memory, that is what is
/// reported.
pub proof fn plugins_export_their_functions(source: Seq<u8>)
    ensures
        flaw(source) is None <==> {
            &&& exports_memory(source, "memory"@)
            &&& exports_function(source, "plugin_alloc"@, 1, 32)
            &&& exports_function(source, "plugin_dealloc"@, 2, 0)
            &&& exports_function(source, "initial_state"@, 0, 64)
            &&& exports_function(source, "apply_op"@, 4, 64)
            &&& exports_function(source, "make_op"@, 4, 64)
            &&& exports_function(source, "render"@, 2, 64)
            &&& exports_function(source, "snapshot"@, 2, 64)
            &&& exports_function(source, "load_snapshot"@, 2, 64)
        },
        !exports_memory(source, "memory"@) ==> flaw(source) == Some(
            Words::Whole("plugin exports no `memory`"@),
        ),
{
    assert(abi().len() == 8);
    assert(exported(source, 0) == exports_function(source, "plugin_alloc"@, 1, 32));
    assert(exported(source, 1) == exports_function(source, "plugin_dealloc"@, 2, 0));
    assert(exported(source, 2) == exports_function(source, "initial_state"@, 0, 64));
    assert(exported(source, 3) == exports_function(source, "apply_op"@, 4, 64));
    assert(exported(source, 4) == exports_function(source, "make_op"@, 4, 64));
    assert(exported(source, 5) == exports_function(source, "render"@, 2, 64));
    assert(exported(source, 6) == exports_function(source, "snapshot"@, 2, 64));
    assert(exported(source, 7) == exports_function(source, "load_snapshot"@, 2, 64));
    if exports_memory(source, "memory"@) {
        if forall|i: int| 0 <= i < 8 ==> exported(source, i) {
            assert(forall|i: int| !first_missing(source, i));
        } else {
            let i = choose|i: int| 0 <= i < 8 && !exported(source, i);
            lemma_some_missing(source, i);
        }
    }
}

/// Where a function is missing, there is a first one.
proof fn lemma_some_missing(source: Seq<u8>, i: int)
    requires
        0 <= i < abi().len(),
        !exported(source, i),
    ensures
        exists|j: int| first_missing(source, j),
    decreases i,
{
    if exists|j: int| 0 <= j < i && !exported(source, j) {
        let j = choose|j: int| 0 <= j < i && !exported(source, j);
        lemma_some_missing(source, j);
    } else {
        assert(first_missing(source, i));
    }
}

/// The first function that is missing is the one that is reported, by its name.
pub proof fn missing_functions_are_named(source: Seq<u8>, i: int)
    requires
        exports_memory(source, "memory"@),
        0 <= i < abi().len(),
        !exported(source, i),
        forall|j: int| 0 <= j < i ==> exported(source, j),
    ensures
        flaw(source) == Some(Words::Start("export `"@ + abi()[i].0 + "`: "@)),
{
    assert(first_missing(source, i));
    lemma_first_missing(source, i);
}

/// Each refusal has its reason: no key at all, a signature that is not 64 bytes, no key that can be
/// used, or no key that verifies the signature over all of the bytes; and a plugin with none of
/// these is admitted.
pub proof fn refusals_have_their_reason(message: Seq<u8>, signature: Seq<u8>, keys: Seq<[u8; 32]>)
    ensures
        ({
            let usable = exists|i: int| 0 <= i < keys.len() && #[trigger] key_usable(keys[i]@);
            let verified = exists|i: int|
                0 <= i < keys.len() && #[trigger] key_usable(keys[i]@) && verifies(
                    keys[i]@,
                    message,
                    signature,
                );
            refusal(message, signature, keys) == if keys.len() == 0 {
                Some(Reject::NoTrustedKeys)
            } else if signature.len() != 64 {
                Some(Reject::MalformedSignature)
            } else if !usable {
                Some(Reject::NoUsableKeys)
            } else if !verified {
                Some(Reject::Untrusted)
            } else {
                None
            }
        }),
{
    if exists|i: int| 0 <= i < keys.len() && #[trigger] key_usable(keys[i]@) {
        let i = choose|i: int| 0 <= i < keys.len() && #[trigger] key_usable(keys[i]@);
        assert(key_usable(keys[i]@));
        assert(any_usable(keys));
    }
    if exists|i: int|
        0 <= i < keys.len() && #[trigger] key_usable(keys[i]@) && verifies(
            keys[i]@,
            message,
            signature,
        ) {
        let i = choose|i: int|
            0 <= i < keys.len() && #[trigger] key_usable(keys[i]@) && verifies(
                keys[i]@,
                message,
                signature,
            );
        assert(key_usable(keys[i]@));
        assert(any_verifies(keys, message, signature));
    }
}

/// What is no key is reported with what is wrong: how many bytes there are, where they are not 64,
/// or which pair of digits is the first that is none.
pub proof fn bad_keys_are_told(s: Seq<char>, i: int)
    ensures
        ({
            let b = utf8::encode_utf8(text::trim(s));
            &&& b.len() != 64 ==> key_of(s) == Err::<Seq<u8>, Seq<char>>(
                "expected 64 hex chars, got "@ + text::decimal(b.len()),
            )
            &&& b.len() == 64 && 0 <= i < 32 && pair_at(b, i) is None && (forall|j: int|
                0 <= j < i ==> pair_at(b, j) is Some) ==> key_of(s) == Err::<Seq<u8>, Seq<char>>(
                "bad hex at "@ + text::decimal(i as nat) + ": "@
                    + "invalid digit found in string"@,
            )
        }),
{
    let b = utf8::encode_utf8(text::trim(s));
    if b.len() == 64 && 0 <= i < 32 && pair_at(b, i) is None && (forall|j: int|
        0 <= j < i ==> pair_at(b, j) is Some) {
        assert(first_bad(b, i));
        let o = choose|o: int| first_bad(b, o);
        if o < i {
            assert(pair_at(b, o) is Some);
        } else if i < o {
            assert(pair_at(b, i) is Some);
        }
    }
}

/// A failure that is known whole is reported in these words and no others; one of wasmtime starts
/// with its words.
pub proof fn failures_are_told_in_their_words(e: Seq<char>, t: Seq<char>)
    ensures
        told(e, Words::Whole(t)) <==> e == t,
        told(e, Words::Start(t)) <==> exists|rest: Seq<char>| e == #[trigger] (t + rest),
{
    text::parts_are_found(e, t);
}

/// Keys of which none can be used come before keys of which none verifies, and only where there is a
/// key of both kinds is there no refusal.
pub proof fn verdicts_fail_closed(verified: bool)
    ensures
        verdict(false, verified) == Some(Reject::NoUsableKeys),
        verdict(true, false) == Some(Reject::Untrusted),
        verdict(true, true) is None,
{
}

/// A place and a length are packed side by side, the place in the high half.
pub proof fn places_and_lengths_stand_side_by_side(at: u32, len: u32)
    ensures
        packed_pair(at, len) == at * 0x1_0000_0000 + len,
{
    let a = at as u64;
    let l = len as u64;
    assert((a << 32 | l) == a * 0x1_0000_0000 + l) by (bit_vector)
        requires
            a < 0x1_0000_0000,
            l < 0x1_0000_0000,
    ;
}

/// Each refusal is reported in its own sentence.
pub proof fn refusals_are_told_apart()
    ensures
        reject_text(Reject::Untrusted) == "no trusted key verifies the plugin signature"@,
        reject_text(Reject::MalformedSignature)
            == "plugin signature is not a 64-byte Ed25519 signature"@,
        reject_text(Reject::NoTrustedKeys) == "trusted-authors list is empty (nothing can load)"@,
        reject_text(Reject::NoUsableKeys)
            == "no trusted-authors entry is a valid 32-byte Ed25519 key"@,
{
}

} // verus!
