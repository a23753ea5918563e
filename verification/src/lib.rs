//! The semantic core of the Kira frontend.

pub mod aliases;
pub mod arguments;
pub mod arrays;
pub mod backed;
pub mod body_refs;
pub mod build_kind;
pub mod build_machine;
pub mod callables;
pub mod captures;
pub mod cells;
pub mod child_slots;
pub mod class_exprs;
pub mod class_fields;
pub mod class_fill;
pub mod class_laws;
pub mod class_methods;
pub mod class_order;
pub mod classes;
pub mod closure_calls;
pub mod closure_dispatchers;
pub mod closure_finish;
pub mod coercion;
pub mod constant_moves;
pub mod constant_order;
pub mod constant_values;
pub mod constants;
pub mod construct_collect;
pub mod construction;
pub mod default_values;
pub mod diagnostics;
pub mod dispatch_arm;
pub mod dispatch_body;
pub mod dispatch_tree;
pub mod drop_reads;
pub mod extend_blocks;
pub mod families;
pub mod family_calls;
pub mod family_conformance;
pub mod family_dispatchers;
pub mod family_headers;
pub mod family_inherit;
pub mod family_order;
pub mod family_overrides;
pub mod family_readers;
pub mod family_resolve;
pub mod family_variants;
pub mod field_reads;
pub mod field_sweep;
pub mod fn_types;
pub mod function_bodies;
pub mod function_values;
pub mod graph;
pub mod hir;
pub mod imports;
pub mod inferred;
pub mod inits;
pub mod jobs;
pub mod lattice;
pub mod lift;
pub mod lists;
pub mod member_sweep;
pub mod mentions;
pub mod messages;
pub mod method_lookup;
pub mod named_values;
pub mod names;
pub mod program_callables;
pub mod schedule;
pub mod scope;
pub mod sig_lookup;
pub mod signatures;
pub mod slot_fills;
pub mod source;
pub mod spelling;
pub mod symbol_map;
pub mod syntax;
pub mod synth;
pub mod ty;
pub mod update_laws;
pub mod update_order;
pub mod updates;
pub mod value_members;
pub mod visibility;
