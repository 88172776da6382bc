//! Readers and writers of the Lucene 9.12 index format, in memory.

pub mod automaton;
pub mod automaton_laws;
pub mod bits;
pub mod block_index_laws;
pub mod block_read_laws;
pub mod block_tree;
pub mod block_tree_laws;
pub mod block_unique;
pub mod bytes;
pub mod codec_util;
pub mod dict_limits_laws;
pub mod disi;
pub mod doc_ids;
pub mod doc_parse;
pub mod doc_postings;
pub mod doc_unique;
pub mod doc_values;
pub mod doc_values_laws;
pub mod doc_values_read;
pub mod doc_values_reader;
pub mod enum_core;
pub mod error;
pub mod field_infos;
pub mod field_infos_laws;
pub mod float;
pub mod for_util;
pub mod fst;
pub mod fst_compiler;
pub mod io;
pub mod leaf_block;
pub mod lz4_block;
pub mod num;
pub mod packed;
pub mod point_index;
pub mod point_order;
pub mod points;
pub mod points_laws;
pub mod points_read;
pub mod points_reader;
pub mod position_parse;
pub mod positions;
pub mod positions_read;
pub mod postings;
pub mod postings_laws;
pub mod postings_ll;
pub mod postings_read;
pub mod postings_record_laws;
pub mod postings_walk;
pub mod postings_walk_laws;
pub mod strings;
pub mod terms_dict;
pub mod wildcard_laws;

pub use field_infos::{DocValuesType, FieldInfo, FieldInfos, IndexOptions};
pub use io::{ChecksumIndexInput, ChecksumIndexOutput, DataInput, IndexInput, IndexOutput};
pub use postings_read::{DocsEnum, DocsFreqsEnum, PostingsReader, TermEntry, NO_MORE_DOCS};
