pub mod edit;
pub mod init;
pub mod list;
pub mod new;
