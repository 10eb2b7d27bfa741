//! What a decoding matrix gives out over a whole session.
//!
//! Equations and source symbols reach the matrix one after the other.  Each time the
//! matrix gives out the symbols that are determined now and were not before, and the
//! caller adds them to the known ones.
use vstd::prelude::*;

use crate::codec::decoder::laws;
use crate::codec::decoder::linear;
use crate::codec::decoder::linear::{Equation, Symbols};
use crate::codec::decoder::system;
use crate::codec::decoder::system::Rows;
use crate::config::Field;
use crate::gf::algebra;

verus! {

// ── What a matrix leaves open ────────────────────────────────────────────

/// The symbols `t` are possible by the rows and the known symbols.
pub open spec fn possible(
    f: Field,
    size: nat,
    rows: Rows,
    known: Map<u32, Seq<u8>>,
    t: Symbols,
) -> bool {
    &&& laws::all_sized(t, size)
    &&& system::agrees(t, known)
    &&& system::rows_hold(f, rows, t)
}

/// The rows are in reduced row-echelon form, determine no symbol, and mention none
/// that is known.
pub open spec fn settled(f: Field, size: nat, rows: Rows, known: Map<u32, Seq<u8>>) -> bool {
    &&& system::reduced(f, rows, size)
    &&& system::unsolved(rows)
    &&& system::clear_of(rows, known)
    &&& system::sized(known, size)
}

/// A symbol that occurs in no row can be changed.
proof fn lemma_open_symbol(
    f: Field,
    size: nat,
    rows: Rows,
    known: Map<u32, Seq<u8>>,
    s: Symbols,
    id: u32,
) -> (t: Symbols)
    requires
        size > 0,
        settled(f, size, rows, known),
        possible(f, size, rows, known, s),
        !known.contains_key(id),
        forall|p: u32| #[trigger] rows.contains_key(p) ==> rows[p].at(id) == 0,
    ensures
        possible(f, size, rows, known, t),
        t(id) != s(id),
{
    let e: Symbols = |i: u32|
        Seq::new(
            size,
            |k: int|
                if i == id {
                    1u8
                } else {
                    0u8
                },
        );
    let t: Symbols = |i: u32| Seq::new(size, |k: int| s(i)[k] ^ e(i)[k]);
    let other: u32 = if id == 0 {
        1
    } else {
        0
    };
    assert forall|q: u32| #[trigger] rows.contains_key(q) implies rows[q].holds(f, t) by {
        let r = rows[q];
        assert forall|k: int| 0 <= k < r.payload.len() implies #[trigger] linear::sum_upto(
            f,
            r.coef,
            t,
            k,
            linear::id_count(),
        ) == r.payload[k] by {
            assert forall|i: u32| algebra::in_field(f, #[trigger] (r.coef)(i)) by {
                assert(algebra::in_field(f, r.at(i)));
            }
            linear::lemma_sum_symbols(f, r.coef, s, e, t, k, linear::id_count());
            assert forall|i: u32| algebra::scale_byte(f, #[trigger] (r.coef)(i), e(i)[k]) == 0 by {
                assert(algebra::in_field(f, r.at(i)));
                algebra::lemma_scale_byte(f, r.at(i), r.at(i), e(i)[k], 0);
            }
            linear::lemma_sum_two(f, r.coef, e, k, id, other, linear::id_count());
            algebra::lemma_xor(0, 0, 0, 0);
            algebra::lemma_xor(r.payload[k], 0, 0, 0);
            assert(linear::sum_upto(f, r.coef, s, k, linear::id_count()) == r.payload[k]);
        }
    }
    assert forall|i: u32| #[trigger] known.contains_key(i) implies t(i) == known[i] by {
        assert forall|k: int| 0 <= k < size implies #[trigger] t(i)[k] == s(i)[k] by {
            algebra::lemma_xor(s(i)[k], 0, 0, 0);
        }
        assert(s(i).len() == size);
        assert(t(i) =~= s(i));
    }
    assert(t(id) != s(id)) by {
        algebra::lemma_xor(s(id)[0], 1, 0, 0);
        algebra::lemma_xor(1, s(id)[0], 0, 0);
        algebra::lemma_xor(s(id)[0], s(id)[0], 1, 0);
        algebra::lemma_xor(1, 0, 0, 0);
        if t(id) == s(id) {
            assert(t(id)[0] == s(id)[0] ^ 1);
        }
    }
    t
}

/// Recovery is complete: a symbol that has the same value in all possible symbols
/// is known.
pub proof fn lemma_determined(
    f: Field,
    size: nat,
    rows: Rows,
    known: Map<u32, Seq<u8>>,
    s: Symbols,
    id: u32,
)
    requires
        size > 0,
        settled(f, size, rows, known),
        possible(f, size, rows, known, s),
        forall|t: Symbols| #[trigger] possible(f, size, rows, known, t) ==> t(id) == s(id),
    ensures
        known.contains_key(id),
        known[id] == s(id),
{
    if !known.contains_key(id) {
        if exists|p: u32| #[trigger] rows.contains_key(p) && rows[p].at(id) != 0 {
            let p = choose|p: u32| #[trigger] rows.contains_key(p) && rows[p].at(id) != 0;
            system::lemma_nothing_more_determined(f, rows, size, s, p, id);
            let t = choose|t: Symbols|
                {
                    &&& #[trigger] system::rows_hold(f, rows, t)
                    &&& forall|i: u32| #[trigger] t(i).len() == size
                    &&& t(id) != s(id)
                    &&& forall|i: u32|
                        (forall|q: u32| #[trigger]
                            rows.contains_key(q) ==> rows[q].at(i) == 0) ==> t(i)
                            == #[trigger] s(i)
                };
            assert forall|i: u32| #[trigger] known.contains_key(i) implies t(i) == known[i] by {
                assert(forall|q: u32| #[trigger] rows.contains_key(q) ==> rows[q].at(i) == 0);
                assert(t(i) == s(i));
            }
            assert(possible(f, size, rows, known, t));
        } else {
            let t = lemma_open_symbol(f, size, rows, known, s, id);
        }
        assert(false);
    }
}

// ── Sessions ─────────────────────────────────────────────────────────────

/// What the matrix is told.
pub enum Step {
    /// A coded equation.
    Coded(Equation),
    /// A source symbol and its value.
    Source(u32, Seq<u8>),
}

/// The rows of the matrix, and the symbols that its caller knows.
pub struct Progress {
    pub rows: Rows,
    pub known: Map<u32, Seq<u8>>,
}

impl Progress {
    /// The rows after a step, those that determine a symbol included.
    pub open spec fn rows_after(self, f: Field, step: Step, max: nat) -> Rows {
        match step {
            Step::Coded(eq) => system::after_coded(f, self.rows, eq, self.known, max),
            Step::Source(id, data) => system::after_source(f, self.rows, id, data),
        }
    }

    /// What the matrix gives out.
    pub open spec fn given(self, f: Field, step: Step, max: nat) -> Map<u32, Seq<u8>> {
        system::solved_part(self.rows_after(f, step, max))
    }

    /// The known symbols with the one that the step brings, if it brings one.
    pub open spec fn told(self, step: Step) -> Map<u32, Seq<u8>> {
        match step {
            Step::Coded(_) => self.known,
            Step::Source(id, data) => self.known.insert(id, data),
        }
    }

    /// After a step.
    pub open spec fn stepped(self, f: Field, step: Step, max: nat) -> Self {
        Progress {
            rows: system::unsolved_part(self.rows_after(f, step, max)),
            known: self.given(f, step, max).union_prefer_right(self.told(step)),
        }
    }
}

/// What a step says is true of the symbols `t`.
pub open spec fn step_true(f: Field, size: nat, step: Step, t: Symbols) -> bool {
    match step {
        Step::Coded(eq) => eq.wf(f, size) && eq.holds(f, t),
        Step::Source(id, data) => data.len() == size && t(id) == data,
    }
}

/// After the first `n` steps of a session that starts with an empty matrix and the
/// symbols `known`.
pub open spec fn progress(
    f: Field,
    known: Map<u32, Seq<u8>>,
    steps: Seq<Step>,
    max: nat,
    n: nat,
) -> Progress
    decreases n,
{
    if n == 0 {
        Progress { rows: Map::empty(), known }
    } else {
        progress(f, known, steps, max, (n - 1) as nat).stepped(f, steps[n - 1], max)
    }
}

/// The symbols `t` satisfy all that has been said in the first `n` steps.
pub open spec fn satisfies(
    f: Field,
    size: nat,
    known: Map<u32, Seq<u8>>,
    steps: Seq<Step>,
    n: nat,
    t: Symbols,
) -> bool {
    &&& laws::all_sized(t, size)
    &&& system::agrees(t, known)
    &&& forall|i: int| 0 <= i < n ==> step_true(f, size, #[trigger] steps[i], t)
}

/// All that has been said in the first `n` steps leaves only one value for a symbol,
/// that of `s`.
pub open spec fn determined(
    f: Field,
    size: nat,
    known: Map<u32, Seq<u8>>,
    steps: Seq<Step>,
    n: nat,
    s: Symbols,
    id: u32,
) -> bool {
    forall|t: Symbols| #[trigger] satisfies(f, size, known, steps, n, t) ==> t(id) == s(id)
}

/// There is room for every equation of the first `n` steps.
pub open spec fn roomy(
    f: Field,
    known: Map<u32, Seq<u8>>,
    steps: Seq<Step>,
    max: nat,
    n: nat,
) -> bool {
    forall|i: int|
        0 <= i < n && (#[trigger] steps[i]) is Coded ==> progress(
            f,
            known,
            steps,
            max,
            i as nat,
        ).rows.len() < max
}

/// A step keeps the matrix settled, and gives out nothing that was known.
proof fn lemma_step_settled(f: Field, size: nat, p: Progress, step: Step, max: nat, s: Symbols)
    requires
        settled(f, size, p.rows, p.known),
        step_true(f, size, step, s),
    ensures
        settled(f, size, p.stepped(f, step, max).rows, p.stepped(f, step, max).known),
        system::reduced(f, p.rows_after(f, step, max), size),
        forall|id: u32| #[trigger]
            p.given(f, step, max).contains_key(id) ==> !p.told(step).contains_key(id),
{
    let rows = p.rows_after(f, step, max);
    let told = p.told(step);
    match step {
        Step::Coded(eq) => {
            system::lemma_after_coded_reduced(f, p.rows, eq, p.known, max, size);
            system::lemma_after_coded_clear(f, p.rows, eq, p.known, max, size);
        },
        Step::Source(id, data) => {
            system::lemma_after_source_reduced(f, p.rows, id, data, size);
            system::lemma_after_source_clear(f, p.rows, id, data, p.known, size);
            assert forall|q: u32, x: u32|
                #[trigger] rows.contains_key(q) && #[trigger] told.contains_key(
                    x,
                ) implies rows[q].at(x) == 0 by {
                if x != id {
                    assert(p.known.contains_key(x));
                } else {
                    lemma_source_gone(f, p.rows, id, data, p.known, size, q);
                }
            }
        },
    }
    system::lemma_unsolved_part(f, rows, size);
    system::lemma_solved_part_clear(f, rows, size);
    laws::lemma_solved_sized(f, rows, size);
    let given = p.given(f, step, max);
    let out = p.stepped(f, step, max);
    assert forall|id: u32| #[trigger] given.contains_key(id) implies !told.contains_key(id) by {
        assert(rows.contains_key(id) && rows[id].at(id) == 1);
    }
    assert forall|q: u32, x: u32|
        #[trigger] out.rows.contains_key(q) && #[trigger] out.known.contains_key(
            x,
        ) implies out.rows[q].at(x) == 0 by {
        assert(rows.contains_key(q));
        if !told.contains_key(x) {
            assert(given.contains_key(x));
        }
    }
    assert forall|x: u32| #[trigger] out.known.contains_key(x) implies out.known[x].len() == size by {
        if !told.contains_key(x) {
            assert(given.contains_key(x));
        } else {
            assert(out.known[x] == told[x]);
        }
    }
}

/// After a source symbol no row mentions it.
proof fn lemma_source_gone(
    f: Field,
    rows: Rows,
    id: u32,
    data: Seq<u8>,
    known: Map<u32, Seq<u8>>,
    size: nat,
    q: u32,
)
    requires
        system::reduced(f, rows, size),
        system::clear_of(rows, known),
        system::after_source(f, rows, id, data).contains_key(q),
    ensures
        system::after_source(f, rows, id, data)[q].at(id) == 0,
{
    system::lemma_after_source_clear(f, rows, id, data, known, size);
    // the lemma speaks of the symbol whether it was known before or not
    let _was_known = known.contains_key(id);
}

/// What is possible after a step was possible before it and satisfies the step, and
/// the other way round.
proof fn lemma_step_exact(
    f: Field,
    size: nat,
    p: Progress,
    step: Step,
    max: nat,
    s: Symbols,
    t: Symbols,
)
    requires
        settled(f, size, p.rows, p.known),
        step is Coded ==> p.rows.len() < max,
        possible(f, size, p.rows, p.known, s),
        step_true(f, size, step, s),
        laws::all_sized(t, size),
    ensures
        ({
            let out = p.stepped(f, step, max);
            possible(f, size, out.rows, out.known, t) <==> possible(f, size, p.rows, p.known, t)
                && step_true(f, size, step, t)
        }),
{
    let rows = p.rows_after(f, step, max);
    let given = p.given(f, step, max);
    let told = p.told(step);
    let out = p.stepped(f, step, max);
    lemma_step_settled(f, size, p, step, max, s);
    system::lemma_solved_part_exact(f, rows, size, t);
    // the symbols known afterwards are those known before and those given out
    assert(system::agrees(t, out.known) <==> system::agrees(t, told) && system::agrees(t, given))
        by {
        if system::agrees(t, out.known) {
            assert forall|id: u32| #[trigger] told.contains_key(id) implies t(id) == told[id] by {
                assert(out.known.contains_key(id));
            }
            assert forall|id: u32| #[trigger] given.contains_key(id) implies t(id) == given[id] by {
                assert(out.known.contains_key(id));
            }
        }
        if system::agrees(t, told) && system::agrees(t, given) {
            assert forall|id: u32| #[trigger] out.known.contains_key(id) implies t(id)
                == out.known[id] by {
                if !told.contains_key(id) {
                    assert(given.contains_key(id));
                }
            }
        }
    }
    match step {
        Step::Coded(eq) => {
            if system::agrees(t, p.known) {
                if system::rows_hold(f, rows, t) {
                    system::lemma_after_coded_complete(f, p.rows, eq, p.known, max, size, t);
                    assert(system::agrees(s, p.known) && system::rows_hold(f, p.rows, s)
                        && eq.holds(f, s));
                }
                if system::rows_hold(f, p.rows, t) && eq.holds(f, t) {
                    system::lemma_after_coded_sound(f, p.rows, eq, p.known, max, size, t);
                }
            }
        },
        Step::Source(id, data) => {
            assert(system::agrees(t, told) <==> system::agrees(t, p.known) && t(id) == data) by {
                if system::agrees(t, told) {
                    assert(told.contains_key(id));
                    assert forall|x: u32| #[trigger] p.known.contains_key(x) implies t(x)
                        == p.known[x] by {
                        assert(told.contains_key(x));
                    }
                }
            }
            if t(id) == data {
                system::lemma_after_source_exact(f, p.rows, id, data, size, t);
            }
        },
    }
}

/// The invariant of a session: the matrix is settled, and leaves possible exactly the
/// symbols that satisfy all that has been said.
proof fn lemma_progress(
    f: Field,
    size: nat,
    known: Map<u32, Seq<u8>>,
    steps: Seq<Step>,
    max: nat,
    n: nat,
    s: Symbols,
)
    requires
        n <= steps.len(),
        system::sized(known, size),
        roomy(f, known, steps, max, n),
        satisfies(f, size, known, steps, n, s),
    ensures
        ({
            let p = progress(f, known, steps, max, n);
            &&& settled(f, size, p.rows, p.known)
            &&& forall|t: Symbols| #[trigger]
                satisfies(f, size, known, steps, n, t) <==> possible(f, size, p.rows, p.known, t)
        }),
    decreases n,
{
    let p = progress(f, known, steps, max, n);
    if n == 0 {
        assert(p.rows.dom() =~= Set::empty());
    } else {
        let m = (n - 1) as nat;
        let step = steps[m as int];
        let before = progress(f, known, steps, max, m);
        assert(satisfies(f, size, known, steps, m, s));
        lemma_progress(f, size, known, steps, max, m, s);
        lemma_step_settled(f, size, before, step, max, s);
        assert forall|t: Symbols| #[trigger] satisfies(f, size, known, steps, n, t) <==> possible(
            f,
            size,
            p.rows,
            p.known,
            t,
        ) by {
            assert(satisfies(f, size, known, steps, m, t) <==> possible(
                f,
                size,
                before.rows,
                before.known,
                t,
            ));
            assert(satisfies(f, size, known, steps, n, t) <==> satisfies(
                f,
                size,
                known,
                steps,
                m,
                t,
            ) && step_true(f, size, step, t)) by {
                if satisfies(f, size, known, steps, n, t) {
                    assert(step_true(f, size, steps[m as int], t));
                }
                if satisfies(f, size, known, steps, m, t) && step_true(f, size, step, t) {
                    assert forall|i: int| 0 <= i < n implies step_true(
                        f,
                        size,
                        #[trigger] steps[i],
                        t,
                    ) by {}
                }
            }
            if laws::all_sized(t, size) {
                lemma_step_exact(f, size, before, step, max, s, t);
            }
        }
    }
}

/// A session is sound and complete: where symbols `s` satisfy all that the matrix has
/// been told, exactly the symbols that this determines are known, with the values of
/// `s`.
pub proof fn lemma_session(
    f: Field,
    size: nat,
    known: Map<u32, Seq<u8>>,
    steps: Seq<Step>,
    max: nat,
    n: nat,
    s: Symbols,
    id: u32,
)
    requires
        size > 0,
        n <= steps.len(),
        system::sized(known, size),
        roomy(f, known, steps, max, n),
        satisfies(f, size, known, steps, n, s),
    ensures
        progress(f, known, steps, max, n).known.contains_key(id) <==> determined(
            f,
            size,
            known,
            steps,
            n,
            s,
            id,
        ),
        progress(f, known, steps, max, n).known.contains_key(id) ==> progress(
            f,
            known,
            steps,
            max,
            n,
        ).known[id] == s(id),
{
    let p = progress(f, known, steps, max, n);
    lemma_progress(f, size, known, steps, max, n, s);
    assert(possible(f, size, p.rows, p.known, s));
    if p.known.contains_key(id) {
        assert forall|t: Symbols| #[trigger] satisfies(f, size, known, steps, n, t) implies t(id)
            == s(id) by {
            assert(possible(f, size, p.rows, p.known, t));
        }
    }
    if determined(f, size, known, steps, n, s, id) {
        assert forall|t: Symbols| #[trigger] possible(f, size, p.rows, p.known, t) implies t(id)
            == s(id) by {
            assert(satisfies(f, size, known, steps, n, t));
        }
        lemma_determined(f, size, p.rows, p.known, s, id);
    }
}

/// What a step gives out is exactly what is determined now and was not known before,
/// with the right values: every symbol comes out as early as it can, and once.
pub proof fn lemma_session_step(
    f: Field,
    size: nat,
    known: Map<u32, Seq<u8>>,
    steps: Seq<Step>,
    max: nat,
    n: nat,
    s: Symbols,
    id: u32,
)
    requires
        size > 0,
        n < steps.len(),
        system::sized(known, size),
        roomy(f, known, steps, max, n + 1),
        satisfies(f, size, known, steps, n + 1, s),
    ensures
        ({
            let p = progress(f, known, steps, max, n);
            let given = p.given(f, steps[n as int], max);
            &&& given.contains_key(id) <==> determined(f, size, known, steps, n + 1, s, id)
                && !p.told(steps[n as int]).contains_key(id)
            &&& given.contains_key(id) ==> given[id] == s(id)
        }),
{
    let p = progress(f, known, steps, max, n);
    let step = steps[n as int];
    let out = progress(f, known, steps, max, n + 1);
    assert(out == p.stepped(f, step, max));
    assert(satisfies(f, size, known, steps, n, s));
    assert(roomy(f, known, steps, max, n));
    lemma_progress(f, size, known, steps, max, n, s);
    lemma_step_settled(f, size, p, step, max, s);
    lemma_session(f, size, known, steps, max, n + 1, s, id);
}

} // verus!
