# fab_lang

The evaluation core of a solid-modelling language, verified with Verus.

Programs come in as syntax trees. The library evaluates their expressions on an explicit stack, binds
their scopes, resolves their modules and functions, decides what their shapes are made with, and
combines the shapes. It also analyses functions, writes native code for them, remembers the shapes of
module calls, and sets text in a font.

Numbers are doubles by their bits. What is decided about them is integer work; rounding arithmetic is
handed in as a function, the float unit. Builtin functions, printed values, compiled code and files
are asked of the host.

- `src/` is the library. Every function states what it does, and Verus proves it; only of the six
  that call std or the font shaper (`chars`, `emit`, `text`) is the contract believed, and their doc
  comments say what it claims. What the library promises as a whole stands as proof functions whose
  names begin with `law_`.
- `tests/` runs the library on whole programs and on single values.
- `app/` is ordinary Rust around it: the float unit, glyph outlines, and reports.

## Modules

| What | Where |
| --- | --- |
| syntax trees, texts, numbers, values, objects, scopes | `ast`, `chars`, `num`, `value`, `object`, `scope`, `names` |
| operators, iteration, angles, random numbers | `ops`, `iterate`, `trig`, `rng` |
| the expression machine, its steps and its discipline | `machine`, `schedule`, `step`, `eval`, `host`, `run`, `balance`, `budget`, `discipline`, `ledger` |
| what an expression gives, from what its parts give | `parts`, `reach`, `rules`, `elements` |
| calls, bindings, files, native code that calls back | `calls`, `bind`, `hoist`, `islands`, `entry`, `native`, `modules`, `acts`, `intrinsics`, `jit` |
| whole programs and their needs | `resolve` |
| shapes, lettering | `geom`, `geo`, `primitives`, `text`, `font`, `lookups` |
| remembering and recording | `capture`, `read_set`, `mod_cache`, `redundancy` |
| analysis and native code | `analysis`, `emit`, `generate` |
| console, warnings, traces | `message`, `console`, `static_diag`, `trace` |
