pub mod disk_inverted_index;
pub mod index_writer;
pub mod inverted_index;
pub mod k_gram_index;
pub mod positional_inverted_index;
pub mod term_map;
pub mod variable_byte;
pub mod variable_byte_encoder;
