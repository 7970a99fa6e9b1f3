pub mod infer;
