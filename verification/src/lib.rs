//! Schema reflection for RPC services, with the configuration of the services
//! that offer it.
//!
//! A running server describes its own schema to clients that hold no copy of
//! its interface definitions. The library builds, from a set of compiled
//! schema files, an index from every fully-qualified symbol to the file that
//! defines it (`symbol_map`); it builds from the same files a lookup that
//! answers a symbol or a file name with the encoded file and with all that it
//! depends on, what is depended on first (`lazy`, over `closure`); and it
//! answers the requests of the introspection protocol from that lookup and a
//! list of services (`info_handler`, `registry`).
//!
//! `descriptor` holds the schema files as the index reads them, `fqn` the
//! rule of fully-qualified names, `symbol_sets` the sets of symbols that the
//! parts of a file define, and `index_laws` what holds of the index whatever
//! the files are. `str_map` and `lexical` are the sorted tables underneath.
//! `config`, `context`, `service_args`, `scaffold`, `command`, `errors` and
//! `hatch` hold what a service and its tools are set up with; `options` is
//! what `config` believes of the parser of command lines.

pub mod closure;
pub mod command;
pub mod config;
pub mod context;
pub mod descriptor;
pub mod errors;
pub mod fqn;
pub mod hatch;
pub mod index_laws;
pub mod info_handler;
pub mod lazy;
pub mod lexical;
pub mod options;
pub mod registry;
pub mod scaffold;
pub mod service_args;
pub mod str_map;
pub mod symbol_map;
pub mod symbol_sets;
