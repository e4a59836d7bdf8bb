pub mod text;
pub mod resp;
pub mod redis_command;
pub mod list;
pub mod str_map;
pub mod redis_object;
pub mod redis_db;
pub mod redis_server;
pub mod radix_tree;
pub mod laws;
