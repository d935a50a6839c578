# Rulidity

An assembler and contract compiler for the Ethereum Virtual Machine, verified with Verus. Contracts
are written as Rust modules; the compiler turns them into the bytecode that deploys them and into
the JSON form of their interface.

## Layout

- `src/` is the library. All of it is verified.
  - `assembler`, `builder`, `contract`: programs with labels, sequences of instructions, and
    contracts made from programs (a dispatcher over functions, and the code that deploys it).
  - `ast`, `model`, `abi`, `lower`, `expand`: the syntax of contract modules and its compiler.
    `scheme` and `module` say what each construct and each module compiles to, and the compiler is
    proved to do exactly that.
  - `machine`: a model of the machine, on the level of instructions and on the level of bytes.
  - `meaning`: what contract functions compute, without regard to stack, memory and jumps.
  - `layout`, `effects`, `shape`, `simulate`, `steps`, `correct`, `arguments`, `dispatch`, `whole`,
    `frame`, `reads`, `laws`: the laws. The main ones are in `whole`: the creation code of a
    compiled contract deploys it, the deployed bytecode answers a call as the called function means,
    and a call that reverts leaves storage and log as they were. Nothing is said of a call on which
    a loop does not end, in which another contract replies with less than a word where a word is
    read, or whose function has a result and comes to its end without one. `frame` says that
    expressions, internal calls and events leave the variables around them alone, and `reads` that
    what was written to storage and to variables reads back.
- `tests/` runs the library, and runs compiled contracts on an implementation of the machine.
- `app/` is what the attribute `#[contract]` expands to: it reads token streams, hands the module to
  the compiler, and emits the module again with the compiled code beside it.

## What is trusted

The library calls `alloy_primitives` for the Keccak-256 hash and for conversions of 256-bit words.
What these calls return is stated in `keccak` and `word`, and not proved.

The model of the machine leaves out gas, the limit on the height of the stack, value transfers, the
static context in which nothing can be written, and the limits on the size of deployed code.
Calls of other contracts are answered by an arbitrary function of what was asked and of what went
before.
