//! Front end for the ALN update-plan language — lexer, parser and plan
//! mapper — and the plain rules of the pipeline that consumes a plan.
pub mod aln;
pub mod pipeline;
