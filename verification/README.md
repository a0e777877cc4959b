# rustc_alias

A MIR optimisation for rustc that uses the aliasing guarantees of mutable references.
A mutable reference `x` that is an argument of a function is *on top of its borrow stack*
while no other mutable borrow of it has been taken since the last write through it. While that
holds, `*x` keeps the value last written, so reads of `*x` can read that value from a fresh
local instead.

## Layout

- `src/` is the verified library (Verus):
  - `mir.rs` models the part of rustc's MIR that the pass reads and writes; types and
    projection lists are interned in a `TyCtxt`, everything the pass never looks into is an
    opaque number.
  - `analysis/top_of_borrow_stack.rs` is the gen/kill transfer function of the
    top-of-borrow-stack dataflow analysis, its initial state, and the visitor that records the
    result per location, with the laws that the transfer function is a monotone gen/kill
    function and only ever tracks the retagged locals. `analysis/local_set.rs` is its state.
  - `optimisation.rs` is the eliminate-reads optimisation, specified exactly: spans are sorted
    by location, applied one by one, and the replaced assignments are put back bottom-up.
  - `alias.rs` chooses the locals the pass considers; `driver.rs` computes the sysroot and the
    arguments handed to rustc.
- `app/` is the rustc driver around the library: it converts rustc's MIR to the model and back,
  runs the analysis in rustc's dataflow framework, prints, and starts the compiler. It needs a
  rustc toolchain with `rustc_private` crates.
- `tests/` runs the library on concrete bodies.
