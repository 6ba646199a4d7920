pub mod once_init;

pub use once_init::OnceInit;
