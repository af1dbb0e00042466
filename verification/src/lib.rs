//! Descriptors, wire protocol, saved records, debug-info models and the host's
//! session rules for a firmware tuning studio.

pub mod app;
pub mod browse;
pub mod browse_laws;
pub mod bytes;
pub mod call_laws;
pub mod calls;
pub mod can;
pub mod can_laws;
pub mod capture;
pub mod carriers;
pub mod catalog;
pub mod catalog_laws;
pub mod catalog_layout;
pub mod catalog_read;
pub mod cmd;
pub mod connect;
pub mod def_view;
pub mod die;
pub mod double_bits;
pub mod dwarf_eval;
pub mod dwarf_index;
pub mod dwarf_laws;
pub mod dwarf_load;
pub mod dwarf_model;
pub mod dwarf_parser;
pub mod dwarf_source;
pub mod dwarf_types;
pub mod elf;
pub mod elf_image;
pub mod elf_load;
pub mod float_bits;
pub mod float_sum;
pub mod framing;
pub mod host_laws;
pub mod host_wire;
pub mod image_laws;
pub mod key_map;
pub mod leaves;
pub mod live_laws;
pub mod node_ref;
pub mod parse_laws;
pub mod preview;
pub mod recording;
pub mod remote;
pub mod search;
pub mod server;
pub mod server_laws;
pub mod session;
pub mod store;
pub mod stream;
pub mod table;
pub mod task_trace;
pub mod text;
pub mod tree;
pub mod type_def;
pub mod type_handle;
pub mod type_laws;
pub mod type_table;
pub mod values;
pub mod variable_status;
pub mod variable_type;
pub mod wire;
pub mod wire_laws;
pub mod wrappers;
