//! Reading coverage reports: LLVM JSON exports, Coverlet and Istanbul JSON.
pub mod json;
pub mod path;
pub mod format;
pub mod llvm;
pub mod llvm_functions;
pub mod report;
pub mod llvm_report;
pub mod istanbul;
pub mod coverlet;
