//! What commands have from whoever runs the shell.

use crate::markdownsp::Evaluator;
use crate::markdownsp;
use crate::number;
use vstd::prelude::*;

verus! {

/// What the library leaves to its caller: how numbers are read, and how expressions are evaluated.
pub struct Host<N, E> {
    pub num: N,
    pub eval: E,
}

/// The mathematical counterpart of `Host` for a shell on a filesystem.
#[verifier::reject_recursive_types(FS)]
pub ghost struct Services<FS> {
    pub num: number::Reader,
    pub eval: markdownsp::Answers<FS>,
}

/// What a host does for a shell on a filesystem.
pub open spec fn services<FS, N: Fn(&str, u32) -> Option<i64>, E: Evaluator<FS>>(
    h: Host<N, E>,
) -> Services<FS> {
    Services { num: number::reading(h.num), eval: markdownsp::answers(h.eval) }
}

} // verus!
