pub mod read_file;
