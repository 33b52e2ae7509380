pub mod minspan;
pub mod subseq;
