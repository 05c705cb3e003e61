// A compiler and execution engine for a minimal eight-command language on a
// byte tape: the compiler folds runs of identical commands into counted
// opcodes and resolves each loop bracket to its partner; the engine interprets
// the opcode sequence against a fixed-capacity, zero-initialized tape.

pub mod compiler;
pub mod engine;
pub mod opcode;
