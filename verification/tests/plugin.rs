//! Signed plugins: who is admitted, and what the host does with those who are.
use ed25519_dalek::{Signer, SigningKey};
use loft_net::plugin::{
    check_signature, decide, hex_to_key, pack, unpack, verify_then_load, LoadError, PluginInstance,
    Reject,
};
use wasmtime::{Config, Engine};

const COUNTER: &str = r#"
(module
  (memory (export "memory") 1)
  (global $next (mut i32) (i32.const 1024))
  (func $alloc (export "plugin_alloc") (param $len i32) (result i32)
    (local $p i32)
    (local.set $p (global.get $next))
    (global.set $next (i32.add (global.get $next) (local.get $len)))
    (local.get $p))
  (func (export "plugin_dealloc") (param i32 i32))
  (func $pack (param $p i32) (param $n i32) (result i64)
    (i64.or
      (i64.shl (i64.extend_i32_u (local.get $p)) (i64.const 32))
      (i64.extend_i32_u (local.get $n))))
  (func $num (param $p i32) (param $n i32) (result i64)
    (if (result i64) (i32.lt_u (local.get $n) (i32.const 8))
      (then (i64.const 0))
      (else (i64.load align=1 (local.get $p)))))
  (func $ret (param $v i64) (result i64)
    (local $p i32)
    (local.set $p (call $alloc (i32.const 8)))
    (i64.store align=1 (local.get $p) (local.get $v))
    (call $pack (local.get $p) (i32.const 8)))
  (func (export "initial_state") (result i64)
    (call $ret (i64.const 0)))
  (func (export "apply_op") (param i32 i32 i32 i32) (result i64)
    (call $ret (i64.add
      (call $num (local.get 0) (local.get 1))
      (call $num (local.get 2) (local.get 3)))))
  (func (export "make_op") (param i32 i32 i32 i32) (result i64)
    (local $v i64)
    (local.set $v (call $num (local.get 2) (local.get 3)))
    (if (result i64) (i64.eqz (local.get $v))
      (then (i64.const 0))
      (else (call $ret (local.get $v)))))
  (func (export "render") (param i32 i32) (result i64)
    (local $v i64) (local $neg i32) (local $p i32) (local $end i32)
    (local.set $v (call $num (local.get 0) (local.get 1)))
    (local.set $end (i32.add (call $alloc (i32.const 24)) (i32.const 24)))
    (local.set $p (local.get $end))
    (if (i64.lt_s (local.get $v) (i64.const 0))
      (then
        (local.set $neg (i32.const 1))
        (local.set $v (i64.sub (i64.const 0) (local.get $v)))))
    (loop $again
      (local.set $p (i32.sub (local.get $p) (i32.const 1)))
      (i32.store8 (local.get $p)
        (i32.add (i32.const 48) (i32.wrap_i64 (i64.rem_u (local.get $v) (i64.const 10)))))
      (local.set $v (i64.div_u (local.get $v) (i64.const 10)))
      (br_if $again (i64.ne (local.get $v) (i64.const 0))))
    (if (local.get $neg)
      (then
        (local.set $p (i32.sub (local.get $p) (i32.const 1)))
        (i32.store8 (local.get $p) (i32.const 45))))
    (call $pack (local.get $p) (i32.sub (local.get $end) (local.get $p))))
  (func (export "snapshot") (param i32 i32) (result i64)
    (call $pack (local.get 0) (local.get 1)))
  (func (export "load_snapshot") (param i32 i32) (result i64)
    (call $pack (local.get 0) (local.get 1)))
)
"#;

/// An engine that reserves no more address space than a plugin uses.
fn engine() -> Engine {
    let mut config = Config::new();
    config.memory_reservation(0);
    config.memory_reservation_for_growth(0);
    config.memory_guard_size(0);
    Engine::new(&config).expect("an engine")
}

fn wasm(text: &str) -> Vec<u8> {
    wat::parse_str(text).expect("a well-formed module")
}

fn wasm_bytes() -> Vec<u8> {
    wasm(COUNTER)
}

fn author(seed: u8) -> SigningKey {
    SigningKey::from_bytes(&[seed; 32])
}

fn sign(author: &SigningKey, bytes: &[u8]) -> Vec<u8> {
    author.sign(bytes).to_bytes().to_vec()
}

fn sig_a() -> Vec<u8> {
    sign(&author(1), &wasm_bytes())
}

fn sig_b() -> Vec<u8> {
    sign(&author(2), &wasm_bytes())
}

fn key_a() -> [u8; 32] {
    author(1).verifying_key().to_bytes()
}

fn key_b() -> [u8; 32] {
    author(2).verifying_key().to_bytes()
}

/// Some 32 bytes that are no public key.
fn no_key() -> [u8; 32] {
    let mut raw = [0u8; 32];
    loop {
        if ed25519_dalek::VerifyingKey::from_bytes(&raw).is_err() {
            return raw;
        }
        raw[0] += 1;
    }
}

fn load(text: &str) -> Result<PluginInstance, String> {
    let engine = engine();
    let bytes = wasm(text);
    let sig = sign(&author(1), &bytes);
    let module = match verify_then_load(&engine, &bytes, &sig, &[key_a()]) {
        Ok(m) => m,
        Err(e) => panic!("{}", e.message()),
    };
    PluginInstance::new(&engine, &module)
}

fn failure(r: Result<PluginInstance, String>) -> String {
    match r {
        Ok(_) => panic!("the plugin was started"),
        Err(e) => e,
    }
}

#[test]
fn f1_signed_accepts_and_runs() {
    let engine = engine();
    let module = verify_then_load(&engine, &wasm_bytes(), &sig_a(), &[key_a()])
        .expect("F1: a correctly-signed plugin must be accepted");

    let mut p = PluginInstance::new(&engine, &module).expect("instantiate");
    let mut state = p.initial_state().unwrap();
    for action in [5i64, 10, -3] {
        let op = p.make_op(&state, &action.to_le_bytes()).unwrap();
        state = p.apply_op(&state, &op).unwrap();
    }
    let rendered = String::from_utf8(p.render(&state).unwrap()).unwrap();
    assert_eq!(rendered, "12", "F1: counter must render 12 (CRDT sum +5+10-3)");
}

#[test]
fn f2_tampered_rejects() {
    let engine = engine();
    let mut tampered = wasm_bytes();
    let i = tampered.len() / 2;
    tampered[i] ^= 0xFF;

    let r = verify_then_load(&engine, &tampered, &sig_a(), &[key_a()]);
    assert_eq!(
        r.err(),
        Some(LoadError::Reject(Reject::Untrusted)),
        "F2: a tampered module must be REJECTED before instantiation"
    );
}

#[test]
fn f3_unsigned_rejects() {
    let engine = engine();
    assert_eq!(
        verify_then_load(&engine, &wasm_bytes(), &[], &[key_a()]).err(),
        Some(LoadError::Reject(Reject::MalformedSignature)),
        "F3a: an empty signature must be REJECTED"
    );
    assert_eq!(
        verify_then_load(&engine, &wasm_bytes(), &[0u8; 10], &[key_a()]).err(),
        Some(LoadError::Reject(Reject::MalformedSignature)),
        "F3b: a short signature must be REJECTED"
    );
    assert_eq!(
        verify_then_load(&engine, &wasm_bytes(), &[0u8; 64], &[key_a()]).err(),
        Some(LoadError::Reject(Reject::Untrusted)),
        "F3c: a bogus 64-byte signature must be REJECTED"
    );
}

#[test]
fn f4_wrong_key_rejects() {
    let engine = engine();
    let r = verify_then_load(&engine, &wasm_bytes(), &sig_b(), &[key_a()]);
    assert_eq!(
        r.err(),
        Some(LoadError::Reject(Reject::Untrusted)),
        "F4: a plugin signed by an untrusted author must be REJECTED"
    );
    assert!(
        verify_then_load(&engine, &wasm_bytes(), &sig_b(), &[key_b()]).is_ok(),
        "B's signature must verify under B's own key"
    );
}

#[test]
fn f6_empty_trust_list_rejects() {
    let engine = engine();
    let r = verify_then_load(&engine, &wasm_bytes(), &sig_a(), &[]);
    assert_eq!(
        r.err(),
        Some(LoadError::Reject(Reject::NoTrustedKeys)),
        "F6: with no trusted keys, even a correctly-signed plugin must be REJECTED"
    );
}

#[test]
fn multi_key_any_trusted_accepts() {
    let engine = engine();
    assert!(
        verify_then_load(&engine, &wasm_bytes(), &sig_a(), &[key_b(), key_a()]).is_ok(),
        "a signature by ANY trusted key must be accepted"
    );
}

#[test]
fn trusting_more_keys_refuses_nobody() {
    let keys = [no_key(), key_b(), key_a(), no_key()];
    assert_eq!(check_signature(&wasm_bytes(), &sig_a(), &[key_a()]), None);
    assert_eq!(check_signature(&wasm_bytes(), &sig_a(), &keys), None);
    // The keys need not stand together, and their order and repeats do not count.
    let apart = [key_a(), no_key(), key_b(), no_key(), key_a()];
    assert_eq!(check_signature(&wasm_bytes(), &sig_b(), &[key_a(), key_b()]), None);
    assert_eq!(check_signature(&wasm_bytes(), &sig_b(), &apart), None);
    assert_eq!(check_signature(b"other", &sig_b(), &keys), Some(Reject::Untrusted));
    assert_eq!(check_signature(b"other", &sig_b(), &apart), Some(Reject::Untrusted));
}

#[test]
fn unusable_keys_reject() {
    let engine = engine();
    assert_eq!(
        verify_then_load(&engine, &wasm_bytes(), &sig_a(), &[no_key(), no_key()]).err(),
        Some(LoadError::Reject(Reject::NoUsableKeys))
    );
    // One usable key among them makes the difference.
    assert_eq!(
        check_signature(&wasm_bytes(), &sig_b(), &[no_key(), key_a()]),
        Some(Reject::Untrusted)
    );
}

#[test]
fn refusals_come_in_order() {
    // No key and no signature: the keys come first.
    assert_eq!(check_signature(b"", &[], &[]), Some(Reject::NoTrustedKeys));
    // No signature and no usable key: the signature comes first.
    assert_eq!(check_signature(b"", &[], &[no_key()]), Some(Reject::MalformedSignature));
    assert_eq!(check_signature(b"", &[0; 65], &[no_key()]), Some(Reject::MalformedSignature));
    assert_eq!(check_signature(b"", &[0; 64], &[no_key()]), Some(Reject::NoUsableKeys));
    assert_eq!(decide(false, false), Some(Reject::NoUsableKeys));
    assert_eq!(decide(true, false), Some(Reject::Untrusted));
    assert_eq!(decide(true, true), None);
}

#[test]
fn a_signed_module_that_is_broken_is_no_refusal() {
    let engine = engine();
    let broken = b"not a module".to_vec();
    let sig = sign(&author(1), &broken);
    match verify_then_load(&engine, &broken, &sig, &[key_a()]) {
        Err(LoadError::Wasm(_)) => {}
        _ => panic!("a broken module must fail to compile"),
    }
}

#[test]
fn failures_have_their_words() {
    assert_eq!(Reject::Untrusted.message(), "no trusted key verifies the plugin signature");
    assert_eq!(
        Reject::MalformedSignature.message(),
        "plugin signature is not a 64-byte Ed25519 signature"
    );
    assert_eq!(
        Reject::NoTrustedKeys.message(),
        "trusted-authors list is empty (nothing can load)"
    );
    assert_eq!(
        Reject::NoUsableKeys.message(),
        "no trusted-authors entry is a valid 32-byte Ed25519 key"
    );
    assert_eq!(
        LoadError::from(Reject::Untrusted).message(),
        "REJECTED: no trusted key verifies the plugin signature"
    );
    assert_eq!(LoadError::Wasm("bad".to_string()).message(), "wasm load error: bad");
}

#[test]
fn snapshots_and_empty_buffers_cross_the_boundary() {
    let mut p = load(COUNTER).unwrap();
    let state = (-42i64).to_le_bytes();
    assert_eq!(p.render(&state).unwrap(), b"-42");
    let snap = p.snapshot(&state).unwrap();
    assert_eq!(snap, state);
    let restored = p.load_snapshot(&snap).unwrap();
    assert_eq!(restored, state);
    // An action of 0 is no operation, and an empty operation changes nothing.
    let op = p.make_op(&state, &0i64.to_le_bytes()).unwrap();
    assert_eq!(op, b"");
    assert_eq!(p.apply_op(&state, &op).unwrap(), state);
}

#[test]
fn a_plugin_without_memory_is_named() {
    let e = failure(load(r#"(module (func (export "plugin_alloc") (param i32) (result i32) unreachable))"#));
    assert_eq!(e, "plugin exports no `memory`");
}

#[test]
fn the_first_missing_export_is_named() {
    let e = failure(load(r#"(module (memory (export "memory") 1))"#));
    assert!(e.starts_with("export `plugin_alloc`: "), "{}", e);
    // A function of another type is as good as none.
    let e = failure(load(
        r#"(module (memory (export "memory") 1)
             (func (export "plugin_alloc") (param i32) (result i32) unreachable)
             (func (export "plugin_dealloc") (param i32)))"#,
    ));
    assert!(e.starts_with("export `plugin_dealloc`: "), "{}", e);
    let whole = COUNTER.replace("(export \"load_snapshot\")", "");
    let e = failure(load(&whole));
    assert!(e.starts_with("export `load_snapshot`: "), "{}", e);
}

#[test]
fn a_plugin_that_cannot_start_is_told_apart() {
    let whole = COUNTER.trim_end().trim_end_matches(')').to_string();
    let e = failure(load(&format!("{}(func $bad unreachable) (start $bad))", whole)));
    assert!(e.starts_with("instantiate: "), "{}", e);
    let e = failure(load(r#"(module (import "env" "f" (func)))"#));
    assert!(e.starts_with("instantiate: "), "{}", e);
}

#[test]
fn calls_that_fail_are_named() {
    let trapping = COUNTER.replace(
        "(func (export \"initial_state\") (result i64)\n    (call $ret (i64.const 0)))",
        "(func (export \"initial_state\") (result i64) unreachable)",
    );
    let mut p = load(&trapping).unwrap();
    let e = p.initial_state().unwrap_err();
    assert!(e.starts_with("initial_state: "), "{}", e);

    // A buffer outside the memory.
    let outside = COUNTER.replace(
        "(func (export \"initial_state\") (result i64)\n    (call $ret (i64.const 0)))",
        "(func (export \"initial_state\") (result i64) (i64.const 0xFFFFFFFF00000008))",
    );
    let mut p = load(&outside).unwrap();
    assert_eq!(p.initial_state().unwrap_err(), "memory read: out of bounds memory access");

    let far = COUNTER.replace("(local.get $p))\n  (func (export \"plugin_dealloc\")", "(i32.const 65535))\n  (func (export \"plugin_dealloc\")");
    let mut p = load(&far).unwrap();
    assert_eq!(
        p.render(&[0; 8]).unwrap_err(),
        "memory write: out of bounds memory access"
    );

    let no_room = COUNTER.replace("(local.set $p (global.get $next))", "unreachable");
    let mut p = load(&no_room).unwrap();
    let e = p.snapshot(&[0; 8]).unwrap_err();
    assert!(e.starts_with("plugin_alloc: "), "{}", e);

    let no_free = COUNTER.replace(
        "(func (export \"plugin_dealloc\") (param i32 i32))",
        "(func (export \"plugin_dealloc\") (param i32 i32) unreachable)",
    );
    let mut p = load(&no_free).unwrap();
    let e = p.initial_state().unwrap_err();
    assert!(e.starts_with("plugin_dealloc: "), "{}", e);
}

#[test]
fn places_and_lengths_are_packed() {
    assert_eq!(pack(1, 2), 0x1_0000_0002);
    assert_eq!(unpack(pack(0xFFFF_FFFF, 0x1234_5678)), (0xFFFF_FFFF, 0x1234_5678));
}

#[test]
fn keys_are_read_from_hexadecimal() {
    let text = "d75a980182b10ab7d54bfed3c964073a0ee172f3daa62325af021a68f707511a";
    let key = hex_to_key(text).unwrap();
    assert_eq!(key[0], 0xd7);
    assert_eq!(key[31], 0x1a);
    assert_eq!(hex_to_key(&format!("  {}\n", text.to_uppercase())).unwrap(), key);
    assert_eq!(hex_to_key("abc").unwrap_err(), "expected 64 hex chars, got 3");
    assert_eq!(hex_to_key("").unwrap_err(), "expected 64 hex chars, got 0");
    let bad = text.replace("b1", "g1");
    assert_eq!(hex_to_key(&bad).unwrap_err(), "bad hex at 5: invalid digit found in string");
    // Any key comes back from its digits, in either case.
    let key: [u8; 32] = std::array::from_fn(|i| (i * 37 + 5) as u8);
    let digits: String = key
        .iter()
        .enumerate()
        .map(|(i, b)| if i % 2 == 0 { format!("{b:02x}") } else { format!("{b:02X}") })
        .collect();
    assert_eq!(hex_to_key(&format!("\t\u{3000} {digits}\r\n")), Ok(key));
    // A sign is no digit.
    let plus = text.replace("d7", "+7");
    assert_eq!(hex_to_key(&plus).unwrap_err(), "bad hex at 0: invalid digit found in string");
}

#[test]
fn lengths_are_counted_in_bytes() {
    // 33 characters of which 31 take two bytes are 64 bytes, and no digits.
    let wide = "é".repeat(31) + "ab";
    assert_eq!(wide.len(), 64);
    assert_eq!(hex_to_key(&wide).unwrap_err(), "bad hex at 0: invalid digit found in string");
    // A pair may end inside a character.
    let crooked = "a".to_string() + &"é".repeat(31) + "b";
    assert_eq!(crooked.len(), 64);
    assert_eq!(hex_to_key(&crooked).unwrap_err(), "bad hex at 0: invalid digit found in string");
}
