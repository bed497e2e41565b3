pub mod aarch64;
pub mod bytecode_register;
pub mod bytecode_register_become;
pub mod bytecode_register_become_laws;
pub mod bytecode_register_laws;
pub mod expr;
pub mod le_bytes;
pub mod register_ir;
pub mod register_ir_laws;
pub mod symbols;
pub mod template_jit;
pub mod template_jit_laws;
pub mod text;

pub use bytecode_register::BytecodeRegister;
pub use bytecode_register_become::BytecodeRegister as BytecodeRegisterBecome;
pub use expr::Expr;
pub use template_jit::TemplateJit;
