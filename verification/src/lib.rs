//! Verified core of the Rayzor language runtime.

pub mod anon_object;
pub mod arena;
pub mod array_iterator;
pub mod box_runtime;
pub mod closure_entries;
pub mod compress;
pub mod concurrency;
pub mod crash_diagnostics;
pub mod cstring_runtime;
pub mod ereg;
pub mod exception;
pub mod field_map;
pub mod floats;
pub mod future;
pub mod generic_vec;
pub mod haxe_array;
pub mod haxe_bytes;
pub mod haxe_maps;
pub mod haxe_date;
pub mod haxe_math;
pub mod haxe_string;
pub mod haxe_sys;
pub mod heap;
pub mod heap_check;
pub mod iter_handle;
pub mod json;
pub mod kernel_timing;
pub mod native_stack_trace;
pub mod object_pool;
pub mod panic_guard;
pub mod profile;
pub mod quant;
pub mod quant_kernels;
pub mod reflect;
pub mod sorting;
pub mod text;
pub mod words;
