pub mod search_engine_paths;
