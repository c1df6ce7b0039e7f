use crate::eval::{event_of, run_steps, step_spec, EventV, ItemV, MachineV, Opnd, opnd_val};
use crate::scalar::Scalar;
use vstd::prelude::*;

verus! {

/// Whether a machine is about to execute an item: not finished, not
/// waiting for an answer, and standing on an item that exists.
pub open spec fn ready_at(m: MachineV, item: ItemV) -> bool {
    &&& m.finished is None
    &&& m.pending is None
    &&& 0 <= m.pos < m.items.len()
    &&& m.items[m.pos] == item
}

/// Assigning then reading round-trips: an assignment of `v` to `x`
/// leaves the state `st.insert(x, v)`, and on that state any machine
/// reading `x` pushes exactly `v` and leaves the state untouched.
pub proof fn lemma_assign_then_read(
    st: Map<Seq<char>, Scalar>,
    x: Seq<char>,
    v: Scalar,
    m: MachineV,
)
    requires
        ready_at(m, ItemV::ReadVar(x)),
    ensures
        step_spec(m, st.insert(x, v)).0.opnds == m.opnds.push(Opnd::Value(v)),
        step_spec(m, st.insert(x, v)).0.finished is None,
        step_spec(m, st.insert(x, v)).1 == st.insert(x, v),
{
}

/// Declaring a variable twice is idempotent: the state after two
/// declarations of `x` equals the state after one.
pub proof fn lemma_declare_idempotent(
    st: Map<Seq<char>, Scalar>,
    x: Seq<char>,
    m1: MachineV,
    m2: MachineV,
)
    requires
        ready_at(m1, ItemV::Declare(x)),
        ready_at(m2, ItemV::Declare(x)),
    ensures
        step_spec(m2, step_spec(m1, st).1).1 == step_spec(m1, st).1,
{
    let st1 = step_spec(m1, st).1;
    if st.contains_key(x) {
        assert(st1 == st);
    } else {
        assert(st1 == st.insert(x, Scalar { bits: 0 }));
    }
}

/// A finished machine stands still: no number of further steps changes
/// it or the state.
pub proof fn lemma_finished_stays(m: MachineV, st: Map<Seq<char>, Scalar>, k: nat)
    requires
        m.finished is Some,
    ensures
        run_steps(m, st, k) == (m, st),
    decreases k,
{
    if k > 0 {
        lemma_finished_stays(m, st, (k - 1) as nat);
    }
}

/// Block execution stops at the first value-producing statement: a
/// machine whose current statement ends with a value on the stack
/// finishes at once with exactly that value, the state keeps what the
/// statements so far wrote, and however many steps follow, neither the
/// result nor the state ever changes — the statements behind the
/// statement-end item never run.
pub proof fn lemma_block_stops(m: MachineV, st: Map<Seq<char>, Scalar>, k: nat)
    requires
        ready_at(m, ItemV::EndStmt),
        m.opnds.len() > 0,
        m.opnds.last() is Value,
    ensures
        step_spec(m, st).0.finished == Some(Ok::<Option<Scalar>, crate::error::ErrV>(
            Some(opnd_val(m.opnds.last())),
        )),
        step_spec(m, st).1 == st,
        run_steps(m, st, (k + 1) as nat) == (step_spec(m, st).0, st),
        event_of(step_spec(m, st).0) == EventV::Done(Some(opnd_val(m.opnds.last()))),
{
    let next = step_spec(m, st);
    lemma_finished_stays(next.0, next.1, k);
    assert(run_steps(m, st, (k + 1) as nat) == run_steps(next.0, next.1, k));
}

} // verus!
