//! Allocations that can live on the stack.

use super::tables::{EscapeInfo, EscapeTable};
use crate::ast::tree::ExprId;
use vstd::prelude::*;

verus! {

#[derive(Debug)]
pub struct StackAllocReport {
    pub candidates: Vec<ExprId>,
}

/// The allocations that stay within their function, each once; their order is
/// that of the table.
pub fn stack_alloc_pass(escape: &EscapeTable) -> (report: StackAllocReport)
    requires
        escape.wf(),
    ensures
        report.candidates@.no_duplicates(),
        forall|e: ExprId| #[trigger]
            report.candidates@.contains(e) <==> escape.of(e) == Some(EscapeInfo::NoEscape),
{
    let mut out: Vec<ExprId> = Vec::new();
    let mut i: usize = 0;
    while i < escape.map.len()
        invariant
            i <= escape.map.keys().len(),
            escape.wf(),
            out@.no_duplicates(),
            forall|e: ExprId| #[trigger]
                out@.contains(e) <==> escape.map.keys().take(i as int).contains(e.0) && escape.of(e) == Some(
                    EscapeInfo::NoEscape,
                ),
        decreases escape.map.keys().len() - i,
    {
        let id = ExprId(escape.map.key_at(i));
        let ghost before = out@;
        let ghost p = escape.map.keys().take(i as int);
        let ghost q = escape.map.keys().take(i + 1);
        assert(q =~= p.push(id.0));
        assert forall|x: u32| q.contains(x) <==> p.contains(x) || x == id.0 by {
            assert(q.last() == id.0);
            if p.contains(x) {
                let n = choose|n: int| 0 <= n < p.len() && p[n] == x;
                assert(q[n] == x);
            }
        }
        assert(!p.contains(id.0));
        assert(!before.contains(id));
        if escape.is_no_escape(id) {
            out.push(id);
            assert forall|e: ExprId| out@.contains(e) <==> before.contains(e) || e == id by {
                assert(out@.last() == id);
                if before.contains(e) {
                    let n = choose|n: int| 0 <= n < before.len() && before[n] == e;
                    assert(out@[n] == e);
                }
            }
        }
        assert forall|e: ExprId| #[trigger]
            out@.contains(e) <==> q.contains(e.0) && escape.of(e) == Some(EscapeInfo::NoEscape) by {
            assert(before.contains(e) <==> p.contains(e.0) && escape.of(e) == Some(EscapeInfo::NoEscape));
        }
        i = i + 1;
    }
    assert(escape.map.keys().take(i as int) =~= escape.map.keys());
    assert forall|e: ExprId| #[trigger] out@.contains(e) <==> escape.of(e) == Some(EscapeInfo::NoEscape) by {
        assert(escape.map@.contains_key(e.0) <==> escape.map.keys().contains(e.0));
    }
    StackAllocReport { candidates: out }
}

} // verus!
