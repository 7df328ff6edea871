pub mod error;
pub mod monomial;
pub mod paths;
pub mod report;
pub mod symbol;

pub use error::PathError;
pub use paths::clean_up_data;
pub use report::pretty_print_hamiltonian_paths;
pub use symbol::Symbol;
