# kira_semantics

The semantic core of the Kira frontend, written in Verus: what a name means, what a
declaration becomes, and what is refused along the way. Every function of `src/` is
verified against its contract, and nothing in it is trusted.

A program reaches the core as plain tables. Syntax is named by index, a name is an
interned `Symbol` whose order is the order of the texts, and what neighbouring
components answer (which types are assignable, what a written type means, what a file
sees) is handed in as tables too. Where analysis of an expression lies between two
decisions, the decision before it and the completion after it are two functions
(`begin_*` and `finish_*`, or a `route` and a `settle` step).

- Tables: `source`, `names`, `symbol_map`, `syntax`, `ty`, `hir`, `lattice`, `imports`,
  `diagnostics`, `scope`, `synth`.
- Types and names: `aliases`, `visibility`, `coercion`, `field_reads`, `arrays`,
  `drop_reads`.
- Functions: `callables`, `program_callables`, `signatures`, `sig_lookup`,
  `function_bodies`, `arguments`, `method_lookup`.
- Classes: `classes`, `class_order`, `class_fields`, `class_methods`, `class_fill`,
  `class_exprs`, `class_laws`.
- Closures: `fn_types`, `captures`, `mentions`, `cells`, `lift`, `function_values`,
  `named_values`, `closure_calls`, `closure_finish`, `closure_dispatchers`,
  `default_values`.
- Constants: `constants`, `constant_values`, `body_refs`, `constant_order`,
  `constant_moves`.
- Construct families: `families` and the `family_*` modules, `extend_blocks`,
  `dispatch_tree`, `dispatch_arm`, `dispatch_body`, `value_members`, `jobs`.
- Construct-backed declarations: `construct_collect`, `backed`, `construction`,
  `field_sweep`, `child_slots`, `slot_fills`, `updates`, `update_order`, `update_laws`,
  `inits`, `inferred`, `member_sweep`.
- The whole: `build_kind`, `build_machine`, `schedule`, `messages`, `spelling`.

`tests/` runs the library on concrete programs. `app/` probes the host and renders
diagnostics.
