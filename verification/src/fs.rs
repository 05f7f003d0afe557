//! Files, pipes, epoll, caches, mounts, disks and the configuration file system.
pub mod block_cache;
pub mod configfs;
pub mod demo;
pub mod epoll;
pub mod files;
pub mod flike;
pub mod disk;
pub mod io_queue;
pub mod kobj;
pub mod mounts;
pub mod page_cache;
pub mod pipes;
pub mod term;
