# assembly

A verified assembler. It turns source text into programs for a stack machine whose code is a tree
of blocks, each identified by a digest.

A source defines procedures and, for a program, a main body:

    use.lib::math

    proc.twice.1
        repeat.2
            exec.math::step
        end
    end

    begin
        push.5
        if.true
            call.twice
        else
            syscall.report
        end
    end

`exec` puts the code of a procedure in place, `call` invokes it by digest, and `syscall` invokes a
procedure of the kernel by digest. `proc` and `export` take the number of locals behind the name.

## Layout

- `assembler`: the `Assembler`, which compiles kernels, modules and programs.
- `parsers`: from text to the syntax trees of `ast`.
- `semantics`: what compiling means, as mathematical functions; the contracts of the assembler
  refer to it.
- `code_block`, `combine`, `hasher`, `felt`, `operation`: compiled code and its digests.
- `procedure`, `program`, `provider`, `error`, `text`: the remaining types.
- `laws`: what holds of the assembler as a whole.
  - The programs of a sound assembler find whatever they invoke. An assembler is sound if it got
    its module provider before it compiled modules, the provider serves one module at each path,
    and none at the paths of kernels and programs, and it has had one kernel at most. It stays
    sound under another kernel which exports all the names of the former one, as long as nothing
    that has been compiled uses a kernel.
  - Compiling again gives the same program, the same module and the same kernel.
  - What a sound assembler has compiled before plays no part in what it makes of a source, if the
    modules which the source reaches are served for what they export, and neither the source nor
    these modules ask for procedures which a module calls within itself without exporting them.
  - Compiled code executes what its source says in order, with the prologue and the epilogue of a
    procedure around its body.
  - Two blocks of canonical elements with one digest are the same, unless the hash function gives
    one digest for different elements of a part of each.
  - Assembling with well-behaved modules always comes to a result.

## What is taken on trust

Digests come from the Rescue Prime hash function of `winter-crypto`; it is taken as a function of
its input, and nothing else is assumed of it. `String::push` of the standard library is taken to
append its character. Everything else is proved.
