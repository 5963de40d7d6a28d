use vstd::prelude::*;

verus! {

/// The type of a WebAssembly engine.
#[verifier::external_type_specification]
#[verifier::external_body]
pub struct ExWasmEngine(wasmi::Engine);

/// Whether `bytes` form a WebAssembly module that the default engine
/// accepts; a fixed function of the bytes.
pub uninterp spec fn spec_wasm_valid(bytes: Seq<u8>) -> bool;

/// The fuel a call of the rules may burn: the engine meters execution and
/// stops a module that runs longer, so every call returns.
pub const WASM_FUEL: u64 = 10_000_000;

/// What the module's exported `execute_qi(hexagram, replicas, target)`
/// returns when the module is instantiated and called on an engine that
/// meters fuel, with `fuel` units poured into its store, or `None` when
/// instantiation, lookup of the export or the call fails, running out of
/// fuel included; a fixed function of the bytes, the fuel and the arguments.
pub uninterp spec fn spec_wasm_execute_qi(bytes: Seq<u8>, fuel: u64, hexagram: i32, replicas: i32, target: i32) -> Option<i32>;

/// `wasmi::Engine::new` on a `wasmi::Config::default()` with
/// `consume_fuel(true)`: a fresh engine that meters fuel, so that a store
/// runs only as long as its fuel lasts.
#[verifier::external_body]
fn metered_engine() -> wasmi::Engine {
    let mut config = wasmi::Config::default();
    config.consume_fuel(true);
    wasmi::Engine::new(&config)
}

/// `wasmi::Module::new`: whether the engine accepts `bytes` as a module, the
/// named `spec_wasm_valid`.
#[verifier::external_body]
fn module_accepted(engine: &wasmi::Engine, bytes: &[u8]) -> (ok: bool)
    ensures
        ok == spec_wasm_valid(bytes@),
{
    wasmi::Module::new(engine, bytes).is_ok()
}

/// `wasmi::Module::new`, `Store::add_fuel` with `fuel` on a fresh store,
/// `Linker::instantiate`, `start`, `Instance::get_typed_func` for
/// "execute_qi" and `TypedFunc::call`, on an engine made by `metered_engine`:
/// the named `spec_wasm_execute_qi`; running out of fuel is one of its
/// errors. The text of an error (the engine's own message) is not stated.
#[verifier::external_body]
fn run_execute_qi(engine: &wasmi::Engine, bytes: &[u8], fuel: u64, hexagram: i32, replicas: i32, target: i32) -> (r: Result<
    i32,
    String,
>)
    ensures
        match r {
            Ok(v) => spec_wasm_execute_qi(bytes@, fuel, hexagram, replicas, target) == Some(v),
            Err(_) => spec_wasm_execute_qi(bytes@, fuel, hexagram, replicas, target) is None,
        },
{
    let module = wasmi::Module::new(engine, bytes).map_err(|e| e.to_string())?;
    let linker = wasmi::Linker::<()>::new(engine);
    let mut store = wasmi::Store::new(engine, ());
    store.add_fuel(fuel).map_err(|e| e.to_string())?;
    let pre = linker.instantiate(&mut store, &module).map_err(|e| e.to_string())?;
    let instance = pre.start(&mut store).map_err(|e| e.to_string())?;
    let func = instance.get_typed_func::<(i32, i32, i32), i32>(&store, "execute_qi").map_err(|e| e.to_string())?;
    func.call(&mut store, (hexagram, replicas, target)).map_err(|e| e.to_string())
}

/// A runtime for the replaceable lifecycle rules: a WebAssembly module that
/// exports `execute_qi(hexagram, replicas, target) -> action`.
pub struct WasmQiRuntime {
    engine: wasmi::Engine,
    wasm_bytes: Vec<u8>,
}

impl WasmQiRuntime {
    /// The module the runtime runs.
    pub closed spec fn module(&self) -> Seq<u8> {
        self.wasm_bytes@
    }

    /// A runtime for `wasm_bytes`, refused ("invalid WASM module") when the
    /// engine does not accept them.
    pub fn new(wasm_bytes: &[u8]) -> (r: Result<Self, String>)
        ensures
            match r {
                Ok(rt) => spec_wasm_valid(wasm_bytes@) && rt.module() == wasm_bytes@,
                Err(e) => !spec_wasm_valid(wasm_bytes@) && e@ == "invalid WASM module"@,
            },
    {
        let engine = metered_engine();
        if !module_accepted(&engine, wasm_bytes) {
            return Err(String::from_str("invalid WASM module"));
        }
        Ok(Self { engine, wasm_bytes: crate::bytes::copy_bytes(wasm_bytes) })
    }

    /// Replaces the rules with `wasm_bytes`; refused ("invalid WASM module for
    /// reload"), and the rules kept, when the engine does not accept them.
    pub fn reload(&mut self, wasm_bytes: &[u8]) -> (r: Result<(), String>)
        ensures
            match r {
                Ok(_) => spec_wasm_valid(wasm_bytes@) && final(self).module() == wasm_bytes@,
                Err(e) => !spec_wasm_valid(wasm_bytes@) && e@ == "invalid WASM module for reload"@
                    && final(self).module() == old(self).module(),
            },
    {
        if !module_accepted(&self.engine, wasm_bytes) {
            return Err(String::from_str("invalid WASM module for reload"));
        }
        self.wasm_bytes = crate::bytes::copy_bytes(wasm_bytes);
        Ok(())
    }

    /// Runs the rules' `execute_qi` on a hexagram code, a replica count and a
    /// target, within `WASM_FUEL` units of fuel; the action code it returns
    /// (see `rules`), or the engine's error (running out of fuel included).
    pub fn execute_qi(&mut self, hexagram: i32, replicas: i32, target: i32) -> (r: Result<i32, String>)
        ensures
            final(self).module() == old(self).module(),
            match r {
                Ok(v) => spec_wasm_execute_qi(old(self).module(), WASM_FUEL, hexagram, replicas, target) == Some(v),
                Err(_) => spec_wasm_execute_qi(old(self).module(), WASM_FUEL, hexagram, replicas, target) is None,
            },
    {
        run_execute_qi(&self.engine, self.wasm_bytes.as_slice(), WASM_FUEL, hexagram, replicas, target)
    }
}

} // verus!
