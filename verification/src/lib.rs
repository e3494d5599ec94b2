pub mod types;
pub mod time;
pub mod tick;
pub mod codec;
pub mod packet;
pub mod bigmap;
pub mod setvec;
pub mod user;
pub mod room;
pub mod scope_map;
pub mod world_record;
pub mod ping;
pub mod tick_buffer;
pub mod channels;
pub mod message_manager;
pub mod entity_manager;
pub mod connection;
pub mod handshake;
pub mod events;
pub mod rng;
pub mod server;
pub mod laws;
