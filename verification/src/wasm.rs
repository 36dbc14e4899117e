//! In-database WASM execution: the rules of the host interface.
//!
//! Modules are installed into the store and invoked two ways: a query is
//! read-only, bound to a snapshot; an executor runs inside a fresh optimistic
//! transaction, commits on guest exit 0, and is re-run as a whole where the
//! commit conflicts. Memory-safety violations trap; semantic misuse returns a
//! negative number.

use vstd::prelude::*;
use vstd::string::StringExecFns;
use vstd::string::StringSliceAdditionalSpecFns;

use crate::bloom::hash64;
use crate::coding::{put_bytes, put_u64, put_uvarint};
use crate::error::{invalid, Error, Result};
use crate::order::to_bytes;
use crate::trigger::{detect_mode, validate_trigger_name, TriggerMode};
use crate::txn::{Txn, TxnRead};
use crate::types::{validate_user_key, SeqNo};

verus! {

use crate::bloom::hash_of;
use crate::coding::{enc_u64, enc_uvarint};
use crate::trigger::{mode_of, trigger_name_ok};
use crate::txn::{edited, edits_view, sat_total};
use crate::types::is_user_key;

pub const NOT_FOUND: i32 = -1;

pub const EROFS: i32 = -2;

pub const EINVAL: i32 = -3;

pub const ENOSPC: i32 = -4;

pub const EBADF: i32 = -5;

pub const ELIMIT: i32 = -6;

pub const EIO: i32 = -8;

/// Host-side ceiling of one scan batch.
pub const SCAN_BATCH_MAX: usize = 16_777_216;

/// Metadata for an installed module.
#[derive(Debug)]
pub struct ModuleInfo {
    pub name: String,
    pub size: usize,
    /// Content fingerprint of the stored bytes (cache key, not a security
    /// boundary): lets callers skip re-processing unchanged modules.
    pub content_hash: u128,
}

/// The fingerprint of a module's bytes: the hash of all of them, and that of
/// the length with the first 4096.
pub open spec fn fingerprint(bytes: Seq<u8>) -> nat {
    let head = if bytes.len() < 4096 {
        bytes
    } else {
        bytes.take(4096)
    };
    hash_of(bytes) as nat * 0x1_0000_0000_0000_0000 + hash_of(enc_u64(bytes.len() as u64) + head)
        as nat
}

pub fn content_hash(bytes: &[u8]) -> (h: u128)
    ensures
        h == fingerprint(bytes@),
{
    let a: u64 = hash64(bytes);
    let n: usize = if bytes.len() < 4096 {
        bytes.len()
    } else {
        4096
    };
    let mut salted: Vec<u8> = Vec::new();
    put_u64(&mut salted, bytes.len() as u64);
    let head = vstd::slice::slice_subrange(bytes, 0, n);
    put_bytes(&mut salted, head);
    proof {
        if bytes@.len() < 4096 {
            assert(head@ =~= bytes@);
        } else {
            assert(head@ =~= bytes@.take(4096));
        }
    }
    let b: u64 = hash64(salted.as_slice());
    a as u128 * 0x1_0000_0000_0000_0000 + b as u128
}

/// The entry of a module in a listing.
pub fn module_info(name: String, bytes: &[u8]) -> (m: ModuleInfo)
    ensures
        m.name == name,
        m.size == bytes@.len(),
        m.content_hash == fingerprint(bytes@),
{
    ModuleInfo { name, size: bytes.len(), content_hash: content_hash(bytes) }
}

/// `[A-Za-z0-9._-]`, 1 to 64 bytes.
pub fn validate_module_name(name: &str) -> (r: Result<()>)
    ensures
        r is Ok <==> trigger_name_ok(name.spec_bytes()),
        r matches Err(e) ==> e is InvalidArgument,
{
    validate_trigger_name(name)
}

// ---------------------------------------------------------------------------
// Compiled modules
// ---------------------------------------------------------------------------

/// The WebAssembly engine.
#[verifier::external_type_specification]
#[verifier::external_body]
pub struct ExEngine(wasmtime::Engine);

/// A compiled WebAssembly module.
#[verifier::external_type_specification]
#[verifier::external_body]
pub struct ExModule(wasmtime::Module);

/// The names under which a compiled module exports functions.
pub uninterp spec fn func_exports(m: wasmtime::Module) -> Set<Seq<char>>;

/// The names under which a compiled module exports memories.
pub uninterp spec fn memory_exports(m: wasmtime::Module) -> Set<Seq<char>>;

/// The names of the functions and of the memories that a WebAssembly binary
/// exports.
pub uninterp spec fn exports_in(wasm: Seq<u8>) -> (Set<Seq<char>>, Set<Seq<char>>);

/// `wasmtime::Module::new`: compiles the bytes, or says why it does not. What
/// the module exports is what the bytes export. Nothing is claimed of which
/// bytes compile: that rests on the engine's settings and on the machine.
#[verifier::external_body]
fn compile(engine: &wasmtime::Engine, bytes: &[u8]) -> (r: core::result::Result<
    wasmtime::Module,
    String,
>)
    ensures
        r matches Ok(m) ==> (func_exports(m), memory_exports(m)) == exports_in(bytes@),
{
    wasmtime::Module::new(engine, bytes).map_err(|e| e.to_string())
}

/// `wasmtime::Module::get_export` and `wasmtime::ExternType::func`: whether the
/// module exports a function of that name.
#[verifier::external_body]
fn exports_func(module: &wasmtime::Module, name: &str) -> (b: bool)
    ensures
        b == func_exports(*module).contains(name@),
{
    module.get_export(name).and_then(|e| e.func().cloned()).is_some()
}

/// `wasmtime::Module::get_export` and `wasmtime::ExternType::memory`: whether
/// the module exports a memory of that name.
#[verifier::external_body]
fn exports_memory(module: &wasmtime::Module, name: &str) -> (b: bool)
    ensures
        b == memory_exports(*module).contains(name@),
{
    module.get_export(name).and_then(|e| e.memory().cloned()).is_some()
}

/// The bytes export what an installable module must.
pub open spec fn installable(wasm: Seq<u8>) -> bool {
    exports_in(wasm).0.contains("run"@) && exports_in(wasm).1.contains("memory"@)
}

/// `wasmtime::Module::clone`: another handle on the same compiled module.
#[verifier::external_body]
fn clone_module(m: &wasmtime::Module) -> (r: wasmtime::Module)
    ensures
        same_exports(r, *m),
{
    m.clone()
}

/// The modules export the same.
pub open spec fn same_exports(a: wasmtime::Module, b: wasmtime::Module) -> bool {
    func_exports(a) == func_exports(b) && memory_exports(a) == memory_exports(b)
}

/// Compile a module. Which bytes compile, the engine decides.
pub fn compile_module(engine: &wasmtime::Engine, bytes: &[u8]) -> (r: Result<wasmtime::Module>)
    ensures
        match r {
            Ok(m) => (func_exports(m), memory_exports(m)) == exports_in(bytes@),
            Err(e) => e is Wasm,
        },
{
    match compile(engine, bytes) {
        Ok(m) => Ok(m),
        Err(msg) => Err(wasm_error("compile: ", msg.as_str())),
    }
}

/// What an installable module must export.
pub fn check_exports(has_run: bool, has_memory: bool) -> (r: Result<()>)
    ensures
        r is Ok <==> has_run && has_memory,
        r matches Err(e) ==> e is Wasm,
{
    if !has_run || !has_memory {
        return Err(wasm_error("", "module must export `run: () -> i32` and `memory`"));
    }
    Ok(())
}

/// An error of the WebAssembly engine.
pub fn wasm_error(context: &str, msg: &str) -> (e: Error)
    ensures
        e matches Error::Wasm(s) && s@ == context@ + msg@,
{
    let mut s = String::from_str(context);
    s.append(msg);
    Error::Wasm(s)
}

/// Whether a compiled module can be installed: it exports what a run needs.
pub fn check_compiled(module: &wasmtime::Module) -> (r: Result<()>)
    ensures
        r is Ok <==> func_exports(*module).contains("run"@) && memory_exports(*module).contains(
            "memory"@,
        ),
        r matches Err(e) ==> e is Wasm,
{
    check_exports(exports_func(module, "run"), exports_memory(module, "memory"))
}

/// Compile a module for installing it: bytes that can never run are refused.
/// Which bytes compile, the engine decides.
pub fn check_module(engine: &wasmtime::Engine, name: &str, wasm: &[u8]) -> (r: Result<
    wasmtime::Module,
>)
    ensures
        !trigger_name_ok(name.spec_bytes()) ==> r matches Err(Error::InvalidArgument(_)),
        trigger_name_ok(name.spec_bytes()) ==> (r matches Err(e) ==> e is Wasm),
        r matches Ok(m) ==> installable(wasm@) && (func_exports(m), memory_exports(m))
            == exports_in(wasm@),
{
    validate_module_name(name)?;
    let module = compile_module(engine, wasm)?;
    check_compiled(&module)?;
    Ok(module)
}

/// The mode in which a module consumes a trigger's events, by its exports; none
/// where it is no consumer.
pub fn module_mode(module: &wasmtime::Module) -> (m: Option<TriggerMode>)
    ensures
        m == mode_of(
            func_exports(*module).contains("on_apply"@),
            func_exports(*module).contains("on_touch"@),
        ),
{
    detect_mode(exports_func(module, "on_apply"), exports_func(module, "on_touch"))
}

/// Whether the module describes itself: it exports a `describe` function.
pub fn module_describes(module: &wasmtime::Module) -> (b: bool)
    ensures
        b == func_exports(*module).contains("describe"@),
{
    exports_func(module, "describe")
}

/// The compiled modules that are kept: the fingerprint of each with the tick of
/// its last use, and beside it the module.
pub struct ModuleCache {
    pub entries: Vec<(u128, u64)>,
    pub modules: Vec<wasmtime::Module>,
    pub tick: u64,
    pub cap: usize,
}

pub open spec fn cached(es: Seq<(u128, u64)>, h: u128) -> bool {
    exists|i: int| 0 <= i < es.len() && (#[trigger] es[i]).0 == h
}

/// The entry stands in the list, with the module beside it.
pub open spec fn kept_as(
    es: Seq<(u128, u64)>,
    ms: Seq<wasmtime::Module>,
    e: (u128, u64),
    m: wasmtime::Module,
) -> bool {
    exists|i: int| 0 <= i < es.len() && #[trigger] es[i] == e && ms[i] == m
}

impl ModuleCache {
    /// Each module once, none used after now.
    pub open spec fn wf(self) -> bool {
        &&& self.modules@.len() == self.entries@.len()
        &&& forall|i: int, j: int|
            0 <= i < j < self.entries@.len() ==> (#[trigger] self.entries@[i]).0 != (
            #[trigger] self.entries@[j]).0
        &&& forall|i: int|
            0 <= i < self.entries@.len() ==> (#[trigger] self.entries@[i]).1 <= self.tick
        &&& self.cap >= 1
    }

    pub fn new(cap: usize) -> (c: Self)
        ensures
            c.wf(),
            c.entries@.len() == 0,
            c.modules@.len() == 0,
            c.tick == 0,
            c.cap == (if cap > 1 {
                cap
            } else {
                1
            }),
    {
        ModuleCache {
            entries: Vec::new(),
            modules: Vec::new(),
            tick: 0,
            cap: if cap > 1 {
                cap
            } else {
                1
            },
        }
    }

    /// Note a use of the module. Gives where it is kept, if it is.
    fn touch(&mut self, h: u128) -> (hit: Option<usize>)
        requires
            old(self).wf(),
            old(self).tick < u64::MAX,
        ensures
            final(self).wf(),
            final(self).cap == old(self).cap,
            final(self).tick == old(self).tick + 1,
            final(self).modules == old(self).modules,
            match hit {
                Some(i) => i < old(self).entries@.len() && old(self).entries@[i as int].0 == h,
                None => !cached(old(self).entries@, h),
            },
            final(self).entries@.len() == old(self).entries@.len(),
            forall|i: int|
                0 <= i < old(self).entries@.len() ==> #[trigger] final(self).entries@[i] == (
                if old(self).entries@[i].0 == h {
                    (h, final(self).tick)
                } else {
                    old(self).entries@[i]
                }),
    {
        self.tick = self.tick + 1;
        let ghost before = self.entries@;
        let mut i: usize = 0;
        while i < self.entries.len()
            invariant
                i <= self.entries@.len(),
                before == self.entries@,
                before == old(self).entries@,
                old(self).wf(),
                self.cap == old(self).cap,
                self.tick == old(self).tick + 1,
                self.modules == old(self).modules,
                forall|k: int| 0 <= k < i ==> (#[trigger] before[k]).0 != h,
            decreases self.entries@.len() - i,
        {
            if self.entries[i].0 == h {
                let t: u64 = self.tick;
                self.entries.set(i, (h, t));
                proof {
                    assert(before[i as int].0 == h);
                    assert forall|k: int| 0 <= k < before.len() implies #[trigger] self.entries@[k]
                        == (if before[k].0 == h {
                        (h, self.tick)
                    } else {
                        before[k]
                    }) by {
                        if k < i {
                            assert(before[k].0 != before[i as int].0);
                        } else if k > i {
                            assert(before[i as int].0 != before[k].0);
                        }
                    }
                    assert forall|a: int, b: int|
                        0 <= a < b < self.entries@.len() implies (#[trigger] self.entries@[a]).0
                        != (#[trigger] self.entries@[b]).0 by {
                        assert(before[a].0 != before[b].0);
                    }
                    assert forall|k: int| 0 <= k < self.entries@.len() implies (
                    #[trigger] self.entries@[k]).1 <= self.tick by {
                        assert(before[k].1 <= old(self).tick);
                    }
                }
                return Some(i);
            }
            i += 1;
        }
        proof {
            assert forall|k: int| 0 <= k < self.entries@.len() implies (
            #[trigger] self.entries@[k]).1 <= self.tick by {
                assert(before[k].1 <= old(self).tick);
            }
        }
        None
    }

    /// The least recently used entry.
    fn oldest(&self) -> (n: usize)
        requires
            self.entries@.len() > 0,
        ensures
            n < self.entries@.len(),
            forall|i: int|
                0 <= i < self.entries@.len() ==> self.entries@[n as int].1 <= (
                #[trigger] self.entries@[i]).1,
    {
        let mut n: usize = 0;
        let mut i: usize = 1;
        while i < self.entries.len()
            invariant
                1 <= i <= self.entries@.len(),
                n < i,
                forall|k: int|
                    0 <= k < i ==> self.entries@[n as int].1 <= (#[trigger] self.entries@[k]).1,
            decreases self.entries@.len() - i,
        {
            if self.entries[i].1 < self.entries[n].1 {
                n = i;
            }
            i += 1;
        }
        n
    }

    /// Keep a freshly compiled module, making room for it. Gives what leaves:
    /// whatever stays was used no earlier.
    fn keep(&mut self, h: u128, m: wasmtime::Module) -> (evicted: Vec<u128>)
        requires
            old(self).wf(),
            !cached(old(self).entries@, h),
        ensures
            final(self).wf(),
            final(self).cap == old(self).cap,
            final(self).tick == old(self).tick,
            final(self).entries@.len() == (if old(self).entries@.len() + 1 < old(self).cap {
                old(self).entries@.len() + 1
            } else {
                old(self).cap as nat
            }),
            final(self).entries@.len() > 0,
            final(self).entries@.last() == (h, old(self).tick),
            evicted@.len() + final(self).entries@.len() == old(self).entries@.len() + 1,
            forall|i: int|
                0 <= i < final(self).entries@.len() - 1 ==> kept_as(
                    old(self).entries@,
                    old(self).modules@,
                    #[trigger] final(self).entries@[i],
                    final(self).modules@[i],
                ),
            final(self).modules@.last() == m,
            forall|i: int, j: int|
                0 <= i < evicted@.len() && 0 <= j < old(self).entries@.len()
                    && old(self).entries@[j].0 == #[trigger] evicted@[i] ==> forall|k: int|
                    0 <= k < final(self).entries@.len() - 1 ==> (#[trigger] old(self).entries@[j]).1
                        <= (#[trigger] final(self).entries@[k]).1,
            forall|i: int| 0 <= i < evicted@.len() ==> cached(old(self).entries@, #[trigger] evicted@[i]),
            forall|j: int|
                0 <= j < old(self).entries@.len() ==> cached(
                    final(self).entries@,
                    (#[trigger] old(self).entries@[j]).0,
                ) || evicted@.contains(old(self).entries@[j].0),
    {
        let mut evicted: Vec<u128> = Vec::new();
        let ghost before = self.entries@;
        let ghost mods = self.modules@;
        assert forall|i: int| 0 <= i < before.len() implies kept_as(
            before,
            mods,
            #[trigger] before[i],
            mods[i],
        ) by {}
        while self.entries.len() >= self.cap
            invariant
                self.wf(),
                old(self).wf(),
                self.cap == old(self).cap,
                self.tick == old(self).tick,
                before == old(self).entries@,
                mods == old(self).modules@,
                !cached(before, h),
                evicted@.len() + self.entries@.len() == before.len(),
                self.entries@.len() <= before.len(),
                self.entries@.len() == before.len() || self.entries@.len() >= self.cap - 1,
                forall|i: int|
                    0 <= i < self.entries@.len() ==> kept_as(
                        before,
                        mods,
                        #[trigger] self.entries@[i],
                        self.modules@[i],
                    ),
                forall|i: int, j: int|
                    0 <= i < evicted@.len() && 0 <= j < before.len() && before[j].0
                        == #[trigger] evicted@[i] ==> forall|k: int|
                        0 <= k < self.entries@.len() ==> (#[trigger] before[j]).1 <= (
                        #[trigger] self.entries@[k]).1,
                forall|i: int|
                    0 <= i < evicted@.len() ==> cached(before, #[trigger] evicted@[i]),
                forall|j: int|
                    0 <= j < before.len() ==> cached(self.entries@, (#[trigger] before[j]).0)
                        || evicted@.contains(before[j].0),
            decreases self.entries@.len(),
        {
            let ghost e0 = self.entries@;
            let ghost v0 = evicted@;
            let n: usize = self.oldest();
            let gone: (u128, u64) = self.entries[n];
            let ghost m0 = self.modules@;
            self.entries.remove(n);
            self.modules.remove(n);
            evicted.push(gone.0);
            proof {
                let e1 = self.entries@;
                assert(e1 == e0.remove(n as int));
                assert(kept_as(before, mods, e0[n as int], m0[n as int]));
                let g = choose|g: int| 0 <= g < before.len() && before[g] == e0[n as int];
                assert(before[g].0 == gone.0);
                assert forall|k: int| 0 <= k < e1.len() implies e0.contains(#[trigger] e1[k])
                    && gone.1 <= e1[k].1 && kept_as(before, mods, e1[k], self.modules@[k]) by {
                    let x = if k < n {
                        k
                    } else {
                        k + 1
                    };
                    assert(e0[x] == e1[k]);
                    assert(m0[x] == self.modules@[k]);
                    assert(kept_as(before, mods, e0[x], m0[x]));
                }
                assert forall|a: int, b: int| 0 <= a < b < e1.len() implies (#[trigger] e1[a]).0
                    != (#[trigger] e1[b]).0 by {
                    let x = if a < n {
                        a
                    } else {
                        a + 1
                    };
                    let y = if b < n {
                        b
                    } else {
                        b + 1
                    };
                    assert(e0[x].0 != e0[y].0);
                }
                assert forall|k: int| 0 <= k < e1.len() implies (#[trigger] e1[k]).1
                    <= self.tick by {
                    let x = if k < n {
                        k
                    } else {
                        k + 1
                    };
                    assert(e0[x].1 <= self.tick);
                }
                assert forall|i: int, j: int|
                    0 <= i < evicted@.len() && 0 <= j < before.len() && before[j].0
                        == #[trigger] evicted@[i] implies forall|k: int|
                    0 <= k < e1.len() ==> (#[trigger] before[j]).1 <= (#[trigger] e1[k]).1 by {
                    if i < v0.len() {
                        assert(evicted@[i] == v0[i]);
                        assert forall|k: int| 0 <= k < e1.len() implies (#[trigger] before[j]).1
                            <= (#[trigger] e1[k]).1 by {
                            let x = if k < n {
                                k
                            } else {
                                k + 1
                            };
                            assert(e0[x] == e1[k]);
                            assert(before[j].1 <= e0[x].1);
                        }
                    } else {
                        if j < g {
                            assert(before[j].0 != before[g].0);
                        } else if g < j {
                            assert(before[g].0 != before[j].0);
                        }
                    }
                }
                assert forall|i: int| 0 <= i < evicted@.len() implies cached(
                    before,
                    #[trigger] evicted@[i],
                ) by {
                    if i < v0.len() {
                        assert(evicted@[i] == v0[i]);
                    }
                }
                assert forall|j: int| 0 <= j < before.len() implies cached(
                    e1,
                    (#[trigger] before[j]).0,
                ) || evicted@.contains(before[j].0) by {
                    let q = before[j].0;
                    if v0.contains(q) {
                        let v = choose|v: int| 0 <= v < v0.len() && v0[v] == q;
                        assert(evicted@[v] == q);
                    } else {
                        assert(cached(e0, q));
                        let x = choose|x: int| 0 <= x < e0.len() && (#[trigger] e0[x]).0 == q;
                        if x == n {
                            assert(evicted@[v0.len() as int] == q);
                        } else if x < n {
                            assert(e1[x].0 == q);
                        } else {
                            assert(e1[x - 1].0 == q);
                        }
                    }
                }
            }
        }
        let t: u64 = self.tick;
        let ghost e2 = self.entries@;
        let ghost m2 = self.modules@;
        self.entries.push((h, t));
        self.modules.push(m);
        proof {
            let e3 = self.entries@;
            assert forall|a: int, b: int| 0 <= a < b < e3.len() implies (#[trigger] e3[a]).0 != (
            #[trigger] e3[b]).0 by {
                assert(e3[a] == e2[a]);
                if b < e2.len() {
                    assert(e2[a].0 != e2[b].0);
                } else {
                    assert(kept_as(before, mods, e2[a], m2[a]));
                    let x = choose|x: int| 0 <= x < before.len() && before[x] == e2[a];
                    assert(before[x].0 != h);
                }
            }
            assert forall|i: int| 0 <= i < e3.len() - 1 implies kept_as(
                before,
                mods,
                #[trigger] e3[i],
                self.modules@[i],
            ) by {
                assert(e3[i] == e2[i]);
                assert(self.modules@[i] == m2[i]);
                assert(kept_as(before, mods, e2[i], m2[i]));
            }
            assert forall|i: int, j: int|
                0 <= i < evicted@.len() && 0 <= j < before.len() && before[j].0
                    == #[trigger] evicted@[i] implies forall|k: int|
                0 <= k < e3.len() - 1 ==> (#[trigger] before[j]).1 <= (#[trigger] e3[k]).1 by {
                assert forall|k: int| 0 <= k < e3.len() - 1 implies (#[trigger] before[j]).1 <= (
                #[trigger] e3[k]).1 by {
                    assert(e3[k] == e2[k]);
                }
            }
            assert forall|j: int| 0 <= j < before.len() implies cached(
                e3,
                (#[trigger] before[j]).0,
            ) || evicted@.contains(before[j].0) by {
                if cached(e2, before[j].0) {
                    let x = choose|x: int|
                        0 <= x < e2.len() && (#[trigger] e2[x]).0 == before[j].0;
                    assert(e3[x] == e2[x]);
                }
            }
            assert forall|i: int| 0 <= i < e3.len() implies (#[trigger] e3[i]).1 <= self.tick by {
                if i < e2.len() {
                    assert(e3[i] == e2[i]);
                }
            }
        }
        evicted
    }

    /// The compiled module of these bytes: the one that is kept under their
    /// fingerprint, or else a fresh one, which is kept from now on. Where the
    /// bytes do not compile, nothing is kept.
    pub fn get_or_compile(&mut self, engine: &wasmtime::Engine, bytes: &[u8]) -> (r: Result<
        wasmtime::Module,
    >)
        requires
            old(self).wf(),
            old(self).tick < u64::MAX,
        ensures
            final(self).wf(),
            final(self).cap == old(self).cap,
            final(self).tick == old(self).tick + 1,
            ({
                let h = fingerprint(bytes@) as u128;
                if cached(old(self).entries@, h) {
                    &&& final(self).modules == old(self).modules
                    &&& final(self).entries@ == old(self).entries@.map_values(
                        |e: (u128, u64)|
                            if e.0 == h {
                                (h, final(self).tick)
                            } else {
                                e
                            },
                    )
                    &&& r matches Ok(m) && exists|i: int|
                        0 <= i < old(self).entries@.len() && (#[trigger] old(self).entries@[i]).0
                            == h && same_exports(m, old(self).modules@[i])
                } else {
                    match r {
                        Ok(m) => {
                            let es = final(self).entries@;
                            let n = es.len() - 1;
                            &&& (func_exports(m), memory_exports(m)) == exports_in(bytes@)
                            &&& es.len() == (if old(self).entries@.len() + 1 < old(self).cap {
                                old(self).entries@.len() + 1
                            } else {
                                old(self).cap as nat
                            })
                            &&& es[n] == (h, final(self).tick)
                            &&& same_exports(final(self).modules@[n], m)
                            &&& forall|i: int|
                                0 <= i < n ==> kept_as(
                                    old(self).entries@,
                                    old(self).modules@,
                                    #[trigger] es[i],
                                    final(self).modules@[i],
                                )
                            &&& forall|j: int, i: int|
                                0 <= j < old(self).entries@.len() && 0 <= i < n && !cached(
                                    es,
                                    (#[trigger] old(self).entries@[j]).0,
                                ) ==> old(self).entries@[j].1 <= (#[trigger] es[i]).1
                        },
                        Err(e) => e is Wasm && final(self).entries@ == old(self).entries@
                            && final(self).modules == old(self).modules,
                    }
                }
            }),
    {
        let h: u128 = content_hash(bytes);
        let ghost e0 = self.entries@;
        if let Some(i) = self.touch(h) {
            proof {
                assert(cached(e0, h)) by {
                    assert(e0[i as int].0 == h);
                }
                assert(self.entries@ =~= e0.map_values(
                    |e: (u128, u64)|
                        if e.0 == h {
                            (h, self.tick)
                        } else {
                            e
                        },
                ));
            }
            return Ok(clone_module(&self.modules[i]));
        }
        let ghost e1 = self.entries@;
        assert(e1 =~= e0) by {
            assert forall|i: int| 0 <= i < e0.len() implies e1[i] == e0[i] by {
                assert(e0[i].0 != h);
            }
        }
        let m = compile_module(engine, bytes)?;
        let evicted = self.keep(h, clone_module(&m));
        proof {
            let es = self.entries@;
            let n = es.len() - 1;
            assert forall|j: int, i: int|
                0 <= j < e0.len() && 0 <= i < n && !cached(
                    es,
                    (#[trigger] e0[j]).0,
                ) implies e0[j].1 <= (#[trigger] es[i]).1 by {
                assert(cached(es, e0[j].0) || evicted@.contains(e0[j].0));
                let v = choose|v: int| 0 <= v < evicted@.len() && evicted@[v] == e0[j].0;
                assert(e0[j].0 == evicted@[v]);
            }
        }
        Ok(m)
    }
}

// ---------------------------------------------------------------------------
// The host interface
// ---------------------------------------------------------------------------

/// What an invocation may do.
pub enum Access {
    ReadOnly(SeqNo),
    Txn(Txn),
}

#[derive(Clone, Copy)]
pub struct HostLimits {
    pub max_key_size: usize,
    pub max_value_size: usize,
    pub max_wasm_output: usize,
    pub max_wasm_log: usize,
    pub max_wasm_scans: usize,
}

/// The state of one invocation.
pub struct HostCtx {
    pub access: Access,
    pub input: Vec<u8>,
    pub output: Vec<u8>,
    pub log_bytes: usize,
    pub open_scans: Vec<i32>,
    pub next_scan: i32,
    pub limits: HostLimits,
}

/// The part of `len` bytes that a read from `off` into `cap` bytes of room
/// copies: how many.
pub open spec fn copied(len: nat, off: nat, cap: nat) -> nat {
    if off >= len {
        0
    } else if cap < len - off {
        cap
    } else {
        (len - off) as nat
    }
}

/// Guest numbers are unsigned.
pub fn copy_len(len: usize, off: u32, cap: u32) -> (n: usize)
    ensures
        n == copied(len as nat, off as nat, cap as nat),
{
    let off: u64 = off as u64;
    let len64: u64 = len as u64;
    if off >= len64 {
        0
    } else if (cap as u64) < len64 - off {
        cap as usize
    } else {
        (len64 - off) as usize
    }
}

/// The bytes that a guest gets of a value or of its input: from `off`, as many
/// as fit.
pub fn guest_chunk(data: &Vec<u8>, off: u32, cap: u32) -> (out: Vec<u8>)
    ensures
        out@.len() == copied(data@.len(), off as nat, cap as nat),
        off < data@.len() ==> out@ == data@.subrange(off as int, off + out@.len()),
{
    let n: usize = copy_len(data.len(), off, cap);
    if n == 0 {
        let out: Vec<u8> = Vec::new();
        assert(off < data@.len() ==> out@ =~= data@.subrange(off as int, off as int));
        return out;
    }
    let from: usize = off as usize;
    to_bytes(vstd::slice::slice_subrange(data.as_slice(), from, from + n))
}

/// What answers a guest's read.
pub enum GuestRead {
    Errno(i32),
    /// The transaction's own write.
    Own(Option<Vec<u8>>),
    /// The store, at this seqno.
    At(SeqNo),
}

/// Whether a scan knows the flags: forward or in reverse.
pub fn scan_flags_ok(flags: i32) -> (b: bool)
    ensures
        b == (flags == 0 || flags == 1),
{
    flags == 0 || flags == 1
}

impl HostCtx {
    /// Everything but what the guest reads and writes through stays.
    /// What the guest wrote to the key, if it did.
    pub open spec fn own(self, key: Seq<u8>) -> Option<Option<Seq<u8>>> {
        match self.access {
            Access::ReadOnly(_) => None,
            Access::Txn(t) => t.own(key),
        }
    }

    pub open spec fn same_but_access(self, c: HostCtx) -> bool {
        &&& self.input == c.input
        &&& self.output == c.output
        &&& self.log_bytes == c.log_bytes
        &&& self.open_scans == c.open_scans
        &&& self.next_scan == c.next_scan
        &&& self.limits == c.limits
    }

    /// Everything but the scans stays.
    pub open spec fn same_but_scans(self, c: HostCtx) -> bool {
        &&& self.access == c.access
        &&& self.input == c.input
        &&& self.output == c.output
        &&& self.log_bytes == c.log_bytes
        &&& self.limits == c.limits
    }

    pub open spec fn wf(self) -> bool {
        &&& self.next_scan >= 1
        &&& self.open_scans@.no_duplicates()
        &&& forall|i: int|
            0 <= i < self.open_scans@.len() ==> (#[trigger] self.open_scans@[i]) < self.next_scan
        &&& self.access matches Access::Txn(t) ==> t.wf()
    }

    pub fn new(access: Access, input: Vec<u8>, limits: HostLimits) -> (c: Self)
        requires
            access matches Access::Txn(t) ==> t.wf(),
        ensures
            c.wf(),
            c.access == access,
            c.input == input,
            c.output@.len() == 0,
            c.log_bytes == 0,
            c.open_scans@.len() == 0,
            c.next_scan == 1,
            c.limits == limits,
    {
        HostCtx {
            access,
            input,
            output: Vec::new(),
            log_bytes: 0,
            open_scans: Vec::new(),
            next_scan: 1,
            limits,
        }
    }

    /// Append to the output, up to its limit.
    pub fn output_write(&mut self, data: &[u8]) -> (r: i32)
        ensures
            if old(self).output@.len() + data@.len() > old(self).limits.max_wasm_output {
                r == ENOSPC && *final(self) == *old(self)
            } else {
                r == 0 && final(self).output@ == old(self).output@ + data@ && final(self).access
                    == old(self).access
                    && final(self).input == old(self).input
                    && final(self).log_bytes == old(self).log_bytes
                    && final(self).open_scans == old(self).open_scans
                    && final(self).next_scan == old(self).next_scan
                    && final(self).limits
                    == old(self).limits
            },
    {
        if self.output.len() > self.limits.max_wasm_output || data.len()
            > self.limits.max_wasm_output - self.output.len() {
            return ENOSPC;
        }
        put_bytes(&mut self.output, data);
        0
    }

    /// Count logged bytes, up to their limit.
    pub fn log(&mut self, len: usize) -> (r: i32)
        ensures
            if old(self).log_bytes + len > old(self).limits.max_wasm_log {
                r == ENOSPC && *final(self) == *old(self)
            } else {
                r == 0 && final(self).log_bytes == old(self).log_bytes + len && final(self).access
                    == old(self).access
                    && final(self).output == old(self).output
                    && final(self).input == old(self).input
                    && final(self).open_scans == old(self).open_scans
                    && final(self).next_scan == old(self).next_scan && final(self).limits == old(self).limits
            },
    {
        if self.log_bytes > self.limits.max_wasm_log || len > self.limits.max_wasm_log
            - self.log_bytes {
            return ENOSPC;
        }
        self.log_bytes = self.log_bytes + len;
        0
    }

    /// A guest's put: a reserved, oversized or empty key or an oversized value
    /// is invalid, a query may not write, and a full write set has no space.
    pub fn put(&mut self, key: Vec<u8>, value: Vec<u8>) -> (r: i32)
        requires
            old(self).wf(),
        ensures
            final(self).wf(),
            guest_wrote(*old(self), *final(self), key@, Some(value@), r),
            final(self).same_but_access(*old(self)),
            if !is_user_key(key@) || key@.len() > old(self).limits.max_key_size || value@.len()
                > old(self).limits.max_value_size {
                r == EINVAL && final(self).access == old(self).access
            } else {
                match old(self).access {
                    Access::ReadOnly(_) => r == EROFS && final(self).access == old(self).access,
                    Access::Txn(t) => {
                        &&& r == 0 || r == ENOSPC
                        &&& final(self).access matches Access::Txn(u) && u.same_but_writes(t)
                            && u.bytes == (if key@.len() > t.limits.max_key_size || value@.len()
                            > t.limits.max_value_size {
                            t.bytes as int
                        } else {
                            sat_total(t.bytes, (key@.len() + value@.len()) as int)
                        }) && (if r == 0 {
                            edited(
                                edits_view(t.writes@),
                                key@,
                                Some(value@),
                                edits_view(u.writes@),
                            )
                        } else {
                            u.writes == t.writes
                        })
                        &&& r == 0 <==> key@.len() <= t.limits.max_key_size && value@.len()
                            <= t.limits.max_value_size && sat_total(
                            t.bytes,
                            (key@.len() + value@.len()) as int,
                        ) <= t.limits.max_txn_write_bytes
                    },
                }
            },
    {
        if validate_user_key(key.as_slice()).is_err() || key.len() > self.limits.max_key_size
            || value.len() > self.limits.max_value_size {
            return EINVAL;
        }
        match &mut self.access {
            Access::ReadOnly(_) => EROFS,
            Access::Txn(t) => match t.put(key, value) {
                Ok(()) => 0,
                Err(_) => ENOSPC,
            },
        }
    }

    /// A guest's read: what answers it, or the error number. A read for update
    /// joins the key to the transaction's conflict set.
    pub fn read(&mut self, key: &[u8], for_update: bool) -> (r: GuestRead)
        requires
            old(self).wf(),
        ensures
            final(self).wf(),
            guest_answered(*old(self), key@, r),
            forall|k: Seq<u8>| #[trigger] final(self).own(k) == old(self).own(k),
            final(self).same_but_access(*old(self)),
            if !is_user_key(key@) {
                r == GuestRead::Errno(EINVAL) && final(self).access == old(self).access
            } else {
                match old(self).access {
                    Access::ReadOnly(seq) => final(self).access == old(self).access && r == (
                    if for_update {
                        GuestRead::Errno(EROFS)
                    } else {
                        GuestRead::At(seq)
                    }),
                    Access::Txn(t) => {
                        &&& final(self).access matches Access::Txn(u) && u.writes == t.writes
                            && u.snap == t.snap && u.bytes == t.bytes && u.limits == t.limits
                            && u.system == t.system && (if for_update {
                            edited(edits_view(t.locks@), key@, None, edits_view(u.locks@))
                        } else {
                            u == t
                        })
                        &&& match t.own(key@) {
                            Some(Some(v)) => r matches GuestRead::Own(Some(x)) && x@ == v,
                            Some(None) => r matches GuestRead::Own(None),
                            None => r == GuestRead::At(t.snap),
                        }
                    },
                }
            },
    {
        if validate_user_key(key).is_err() {
            return GuestRead::Errno(EINVAL);
        }
        match &mut self.access {
            Access::ReadOnly(seq) => if for_update {
                GuestRead::Errno(EROFS)
            } else {
                GuestRead::At(*seq)
            },
            Access::Txn(t) => {
                let got = if for_update {
                    t.get_for_update(key)
                } else {
                    t.get(key)
                };
                match got {
                    Ok(TxnRead::Own(v)) => GuestRead::Own(v),
                    Ok(TxnRead::At(seq)) => GuestRead::At(seq),
                    Err(_) => GuestRead::Errno(EINVAL),
                }
            },
        }
    }

    /// A guest's delete.
    pub fn delete(&mut self, key: Vec<u8>) -> (r: i32)
        requires
            old(self).wf(),
        ensures
            final(self).wf(),
            guest_wrote(*old(self), *final(self), key@, None, r),
            final(self).same_but_access(*old(self)),
            if !is_user_key(key@) {
                r == EINVAL && final(self).access == old(self).access
            } else {
                match old(self).access {
                    Access::ReadOnly(_) => r == EROFS && final(self).access == old(self).access,
                    Access::Txn(t) => {
                        &&& r == 0 || r == ENOSPC
                        &&& final(self).access matches Access::Txn(u) && u.same_but_writes(t)
                            && u.bytes == sat_total(t.bytes, key@.len() as int) && (if r == 0 {
                            edited(edits_view(t.writes@), key@, None, edits_view(u.writes@))
                        } else {
                            u.writes == t.writes
                        })
                        &&& r == 0 <==> sat_total(t.bytes, key@.len() as int)
                            <= t.limits.max_txn_write_bytes
                    },
                }
            },
    {
        if validate_user_key(key.as_slice()).is_err() {
            return EINVAL;
        }
        match &mut self.access {
            Access::ReadOnly(_) => EROFS,
            Access::Txn(t) => match t.delete(key) {
                Ok(()) => 0,
                Err(_) => ENOSPC,
            },
        }
    }

    /// Whether a scan may be opened: zero, or the error number.
    pub fn scan_check(&self, flags: i32) -> (r: i32)
        ensures
            r == (if flags != 0 && flags != 1 {
                EINVAL
            } else if self.open_scans@.len() >= self.limits.max_wasm_scans {
                ELIMIT
            } else {
                0
            }),
    {
        if !scan_flags_ok(flags) {
            return EINVAL;
        }
        if self.open_scans.len() >= self.limits.max_wasm_scans {
            return ELIMIT;
        }
        0
    }

    /// Open a scan: unknown flags are invalid, and only so many may be open.
    /// Handles are never reused within an invocation.
    pub fn scan_open(&mut self, flags: i32) -> (r: i32)
        requires
            old(self).wf(),
            old(self).next_scan < i32::MAX,
        ensures
            final(self).wf(),
            final(self).same_but_scans(*old(self)),
            if flags != 0 && flags != 1 {
                r == EINVAL && final(self).open_scans == old(self).open_scans
                    && final(self).next_scan == old(self).next_scan
            } else if old(self).open_scans@.len() >= old(self).limits.max_wasm_scans {
                r == ELIMIT && final(self).open_scans == old(self).open_scans
                    && final(self).next_scan == old(self).next_scan
            } else {
                r == old(self).next_scan && final(self).next_scan == r + 1
                    && final(self).open_scans@ == old(self).open_scans@.push(r)
                    && !old(self).open_scans@.contains(
                    r,
                )
            },
    {
        let code: i32 = self.scan_check(flags);
        if code != 0 {
            return code;
        }
        let h: i32 = self.next_scan;
        self.next_scan = h + 1;
        self.open_scans.push(h);
        h
    }

    /// Whether the handle names an open scan.
    pub fn scan_is_open(&self, h: i32) -> (b: bool)
        ensures
            b == self.open_scans@.contains(h),
    {
        let mut i: usize = 0;
        while i < self.open_scans.len()
            invariant
                i <= self.open_scans@.len(),
                forall|k: int| 0 <= k < i ==> self.open_scans@[k] != h,
            decreases self.open_scans@.len() - i,
        {
            if self.open_scans[i] == h {
                return true;
            }
            i += 1;
        }
        false
    }

    /// Close a scan.
    pub fn scan_close(&mut self, h: i32) -> (r: i32)
        requires
            old(self).wf(),
        ensures
            final(self).wf(),
            final(self).same_but_scans(*old(self)),
            final(self).next_scan == old(self).next_scan,
            if old(self).open_scans@.contains(h) {
                r == 0 && exists|i: int|
                    0 <= i < old(self).open_scans@.len() && #[trigger] old(self).open_scans@[i] == h
                        && final(self).open_scans@ == old(self).open_scans@.remove(i)
            } else {
                r == EBADF && final(self).open_scans == old(self).open_scans
            },
    {
        let ghost before = self.open_scans@;
        let mut i: usize = 0;
        while i < self.open_scans.len()
            invariant
                i <= self.open_scans@.len(),
                before == self.open_scans@,
                *self == *old(self),
                old(self).wf(),
                before.no_duplicates(),
                forall|k: int| 0 <= k < i ==> before[k] != h,
            decreases self.open_scans@.len() - i,
        {
            if self.open_scans[i] == h {
                self.open_scans.remove(i);
                proof {
                    let after = self.open_scans@;
                    assert(after == before.remove(i as int));
                    assert(before[i as int] == h);
                    assert forall|x: int| 0 <= x < after.len() implies before.contains(
                        #[trigger] after[x],
                    ) && after[x] != h && after[x] < self.next_scan by {
                        let y = if x < i {
                            x
                        } else {
                            x + 1
                        };
                        assert(before[y] == after[x]);
                    }
                    assert forall|a: int, b: int|
                        0 <= a < after.len() && 0 <= b < after.len() && a != b implies after[a]
                        != after[b] by {
                        let x = if a < i {
                            a
                        } else {
                            a + 1
                        };
                        let y = if b < i {
                            b
                        } else {
                            b + 1
                        };
                        assert(before[x] == after[a] && before[y] == after[b]);
                    }
                }
                return 0;
            }
            i += 1;
        }
        EBADF
    }
}

/// What a pair takes in a scan batch.
pub open spec fn packed_pair(k: Seq<u8>, v: Seq<u8>) -> Seq<u8> {
    enc_uvarint(k.len() as u64) + enc_uvarint(v.len() as u64) + k + v
}

fn pack_pair(k: &[u8], v: &[u8]) -> (out: Vec<u8>)
    ensures
        out@ == packed_pair(k@, v@),
{
    let mut out: Vec<u8> = Vec::new();
    put_uvarint(&mut out, k.len() as u64);
    put_uvarint(&mut out, v.len() as u64);
    put_bytes(&mut out, k);
    put_bytes(&mut out, v);
    assert(out@ =~= packed_pair(k@, v@));
    out
}

/// How many bytes of a batch the pair needs.
pub fn packed_len(k: &[u8], v: &[u8]) -> (n: usize)
    ensures
        n == packed_pair(k@, v@).len(),
{
    pack_pair(k, v).len()
}

/// A scan batch being filled, up to a guest's room and the host's ceiling.
pub struct ScanBatch {
    pub out: Vec<u8>,
    pub cap: usize,
}

/// What became of a pair offered to a batch.
pub enum Offer {
    Taken,
    /// It waits for the next batch.
    Full,
    /// No batch of this size can take it.
    NoSpace,
}

impl ScanBatch {
    pub fn new(cap: u32) -> (b: Self)
        ensures
            b.out@.len() == 0,
            b.cap == (if cap as int <= SCAN_BATCH_MAX {
                cap as int
            } else {
                SCAN_BATCH_MAX as int
            }),
    {
        let cap: usize = if cap as u64 <= SCAN_BATCH_MAX as u64 {
            cap as usize
        } else {
            SCAN_BATCH_MAX
        };
        ScanBatch { out: Vec::new(), cap }
    }

    pub fn offer(&mut self, k: &[u8], v: &[u8]) -> (r: Offer)
        requires
            old(self).out@.len() <= old(self).cap,
        ensures
            final(self).cap == old(self).cap,
            final(self).out@.len() <= final(self).cap,
            if old(self).out@.len() + packed_pair(k@, v@).len() <= old(self).cap {
                r is Taken && final(self).out@ == old(self).out@ + packed_pair(k@, v@)
            } else {
                final(self).out == old(self).out && if old(self).out@.len() == 0 {
                    r is NoSpace
                } else {
                    r is Full
                }
            },
    {
        let one = pack_pair(k, v);
        if one.len() > self.cap - self.out.len() {
            if self.out.len() == 0 {
                return Offer::NoSpace;
            }
            return Offer::Full;
        }
        put_bytes(&mut self.out, one.as_slice());
        Offer::Taken
    }
}

// ---------------------------------------------------------------------------
// Invocations
// ---------------------------------------------------------------------------

/// An input over the limit is refused before anything runs.
pub fn check_input(len: usize, max_wasm_input: usize) -> (r: Result<()>)
    ensures
        r is Ok <==> len <= max_wasm_input,
        r matches Err(e) ==> e is InvalidArgument,
{
    if len > max_wasm_input {
        return Err(invalid("input exceeds max_wasm_input"));
    }
    Ok(())
}

/// How a guest's run ended.
pub enum Ran {
    Exit(i32),
    Trap(String),
}

/// What a run comes to. An error of the engine that the guest saw as EIO fails
/// the invocation even where the guest swallowed it, and is reported before a
/// trap.
pub fn settle_run(ran: Ran, host_error: Option<Error>) -> (r: Result<i32>)
    ensures
        match host_error {
            Some(e) => r matches Err(x) && x == e,
            None => match ran {
                Ran::Exit(code) => r == Ok::<i32, Error>(code),
                Ran::Trap(msg) => r matches Err(Error::Wasm(m)) && m@ == "trap: "@ + msg@,
            },
        },
{
    if let Some(e) = host_error {
        return Err(e);
    }
    match ran {
        Ran::Exit(code) => Ok(code),
        Ran::Trap(msg) => Err(wasm_error("trap: ", msg.as_str())),
    }
}

/// A query's answer: the output of a guest that exited with 0.
pub fn settle_query(code: i32, output: Vec<u8>) -> (r: Result<Vec<u8>>)
    ensures
        if code == 0 {
            r == Ok::<Vec<u8>, Error>(output)
        } else {
            r == Err::<Vec<u8>, Error>(Error::GuestFailed { code, output })
        },
{
    if code != 0 {
        return Err(Error::GuestFailed { code, output });
    }
    Ok(output)
}

/// What an executor does after an attempt.
pub enum Attempt {
    Done(Result<Vec<u8>>),
    /// The commit conflicted: start over with a fresh snapshot.
    Again,
}

/// Attempts an executor has: at least one.
pub fn attempts(execute_retries: usize) -> (n: usize)
    ensures
        n == (if execute_retries > 1 {
            execute_retries
        } else {
            1
        }),
{
    if execute_retries > 1 {
        execute_retries
    } else {
        1
    }
}

/// What an attempt comes to: a guest that failed commits nothing; a conflict is
/// retried while attempts are left.
pub fn settle_attempt(code: i32, output: Vec<u8>, commit: Result<()>, left: usize) -> (r: Attempt)
    ensures
        is_settled(code, output, commit, left, r),
        if code != 0 {
            r == Attempt::Done(Err(Error::GuestFailed { code, output }))
        } else {
            match commit {
                Ok(_) => r == Attempt::Done(Ok(output)),
                Err(Error::Conflict) => if left > 0 {
                    r is Again
                } else {
                    r == Attempt::Done(Err(Error::Conflict))
                },
                Err(e) => r == Attempt::Done(Err(e)),
            }
        },
{
    if code != 0 {
        return Attempt::Done(Err(Error::GuestFailed { code, output }));
    }
    match commit {
        Ok(()) => Attempt::Done(Ok(output)),
        Err(Error::Conflict) => if left > 0 {
            Attempt::Again
        } else {
            Attempt::Done(Err(Error::Conflict))
        },
        Err(e) => Attempt::Done(Err(e)),
    }
}

/// A guest's write was taken, or it was refused and nothing changed. A guest that
/// only reads has none taken, and neither has a reserved key.
pub open spec fn guest_wrote(
    before: HostCtx,
    after: HostCtx,
    key: Seq<u8>,
    v: Option<Seq<u8>>,
    r: i32,
) -> bool {
    &&& r == 0 ==> after.own(key) == Some(v)
    &&& forall|k: Seq<u8>| r != 0 || k != key ==> #[trigger] after.own(k) == before.own(k)
    &&& before.access is ReadOnly ==> r != 0
    &&& key.len() == 0 || key[0] == 0 ==> r != 0
}

/// What a guest's read gives: its own write, and otherwise the store at the
/// seqno that it reads at.
pub open spec fn guest_answered(c: HostCtx, key: Seq<u8>, r: GuestRead) -> bool {
    match r {
        GuestRead::Errno(_) => key.len() == 0 || key[0] == 0 || c.access is ReadOnly,
        GuestRead::Own(x) => match c.own(key) {
            Some(Some(v)) => x matches Some(y) && y@ == v,
            Some(None) => x is None,
            None => false,
        },
        GuestRead::At(s) => c.own(key) is None && s == (match c.access {
            Access::ReadOnly(q) => q,
            Access::Txn(t) => t.snap,
        }),
    }
}

/// A guest reads its own writes: once a put was taken, a read of the key gives the
/// value, and once a delete was, the read finds the key gone; of other keys it
/// gives what it gave before. A guest that only reads changes nothing.
pub proof fn lemma_guest_reads_its_writes(
    before: HostCtx,
    after: HostCtx,
    key: Seq<u8>,
    v: Option<Seq<u8>>,
    r: i32,
    x: GuestRead,
    other: Seq<u8>,
)
    requires
        guest_wrote(before, after, key, v, r),
        guest_answered(after, key, x),
    ensures
        r == 0 && after.access is Txn ==> match v {
            Some(b) => x matches GuestRead::Own(Some(y)) && y@ == b,
            None => x matches GuestRead::Own(None),
        },
        other != key || r != 0 ==> after.own(other) == before.own(other),
        before.access is ReadOnly ==> r != 0,
{
}

/// What comes of an executor's run.
pub open spec fn is_settled(
    code: i32,
    output: Vec<u8>,
    commit: Result<()>,
    left: usize,
    r: Attempt,
) -> bool {
    match r {
        Attempt::Again => code == 0 && left > 0 && commit == Err::<(), Error>(Error::Conflict),
        Attempt::Done(Ok(out)) => code == 0 && commit is Ok && out == output,
        Attempt::Done(Err(e)) => (code != 0 && e == (Error::GuestFailed { code, output })) || (code
            == 0 && commit == Err::<(), Error>(e) && (e is Conflict ==> left == 0)),
    }
}

/// An executor's effects and its answer go together: an answer is given only where
/// the guest said that all is well and its writes were committed; it is run again
/// only where its commit lost to another and attempts are left.
pub proof fn lemma_answer_means_committed(
    code: i32,
    output: Vec<u8>,
    commit: Result<()>,
    left: usize,
    r: Attempt,
)
    requires
        is_settled(code, output, commit, left, r),
    ensures
        r matches Attempt::Done(Ok(_)) ==> code == 0 && commit is Ok,
        code != 0 ==> r matches Attempt::Done(Err(_)),
        commit is Ok && code == 0 ==> r == Attempt::Done(Ok(output)),
        r is Again ==> commit is Err && left > 0,
        code == 0 && left > 0 && commit == Err::<(), Error>(Error::Conflict) ==> r is Again,
{
}

} // verus!
