//! Parsing, validation and formatting of the Brazilian individual taxpayer number (CPF):
//! eleven digits whose last two are check digits, written plain (`98484485439`) or
//! punctuated (`984.844.854-39`).

pub mod digits;
pub mod cpf;
pub mod laws;

pub use cpf::{Cpf, ParseCpfError};
