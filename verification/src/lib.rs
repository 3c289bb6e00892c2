//! EntropyFS object store: a content-addressed copy-on-write B-tree and the
//! record, inode, directory, extent, epoch and transaction logic over it.

pub mod acknowledged;
pub mod append;
pub mod attrs;
pub mod bytes;
pub mod checkpoint;
pub mod choice_laws;
pub mod chunk;
pub mod codec;
pub mod commit;
pub mod commit_laws;
pub mod compact;
pub mod compose;
pub mod crc;
pub mod data_ops;
pub mod descriptor;
pub mod directory;
pub mod dt;
pub mod durability;
pub mod edit_laws;
pub mod epoch;
pub mod epoch_laws;
pub mod epoch_ops;
pub mod epoch_store;
pub mod error;
pub mod extent_tree;
pub mod extents;
pub mod file_laws;
pub mod form_laws;
pub mod fs;
pub mod gc;
pub mod growth;
pub mod index;
pub mod index_batch;
pub mod index_edit;
pub mod inode;
pub mod io;
pub mod journal;
pub mod keeping;
pub mod laws;
pub mod layout_laws;
pub mod links;
pub mod log;
pub mod logged_laws;
pub mod map;
pub mod mode;
pub mod mount;
pub mod name_laws;
pub mod namespace;
pub mod node;
pub mod object;
pub mod ops;
pub mod overlay;
pub mod patch;
pub mod path_laws;
pub mod paths;
pub mod physical;
pub mod place;
pub mod ratios;
pub mod reach;
pub mod prepare;
pub mod read_deps;
pub mod read_epoch;
pub mod read_plan;
pub mod read_laws;
pub mod readcost;
pub mod record;
pub mod recovered;
pub mod recovery;
pub mod reopen;
pub mod replay;
pub mod replay_laws;
pub mod root;
pub mod segment;
pub mod snap_ops;
pub mod snapshot;
pub mod snapshot_laws;
pub mod sorted;
pub mod standing;
pub mod store;
pub mod survival;
pub mod sum_laws;
pub mod superblock;
pub mod totals;
pub mod transaction;
pub mod transfer;
pub mod tree;
pub mod tried;
pub mod trim_laws;
pub mod undo_laws;
pub mod version;
pub mod views;
pub mod window;
pub mod workers;
