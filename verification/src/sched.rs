pub mod init;
pub mod proc;
pub mod scheduler;
