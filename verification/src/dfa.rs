//! A table-driven finite-state evaluator: a reusable list of components
//! (emit an output, compare an input, jump) interpreted over an input
//! slice, writing into an output slice.
//!
//! The machine can fail to halt (a jump cycle through a component whose
//! input never matches); `interp` gives its meaning for any fuel, and
//! `eval` requires an input on which some fuel suffices.

use vstd::prelude::*;

use vstd::std_specs::cmp::PartialEqSpec;

verus! {

/// One component: emit an output, compare the next input and branch on
/// a match, or jump.
#[derive(Debug, PartialEq)]
pub enum Component<I, O> {
    Output(O),
    Input(I, usize),
    Jump(usize),
}

/// An evaluator over a borrowed component list.
#[derive(Debug)]
pub struct SliceDFA<'a, I, O> {
    pub components: &'a [Component<I, O>],
}

/// Run the component list from `state` for at most `fuel` steps, with
/// `inputs` left to read, `outs` written so far into a buffer of
/// capacity `cap`, and `counter` components visited since the last
/// input comparison.  `None` means the fuel ran out or a component
/// index left the list.  A run halts of itself when the output buffer
/// is full at an output, the inputs are exhausted at a comparison, or
/// the counter shows a jump cycle; the result is then the outputs
/// written and the halting state.
pub open spec fn interp<I: PartialEq, O>(
    c: Seq<Component<I, O>>,
    state: int,
    inputs: Seq<I>,
    outs: Seq<O>,
    cap: int,
    counter: int,
    fuel: nat,
) -> Option<(Seq<O>, int)>
    decreases fuel,
{
    if !(0 <= state < c.len()) {
        None
    } else {
        match c[state] {
            Component::Output(o) => {
                if outs.len() >= cap {
                    Some((outs, state))
                } else if fuel == 0 {
                    None
                } else {
                    interp(c, state + 1, inputs, outs.push(o), cap, counter + 1, (fuel - 1) as nat)
                }
            },
            Component::Input(i, next) => {
                if inputs.len() == 0 {
                    Some((outs, state))
                } else if fuel == 0 {
                    None
                } else if i.eq_spec(&inputs[0]) {
                    interp(c, next as int, inputs.skip(1), outs, cap, 0, (fuel - 1) as nat)
                } else {
                    interp(c, state + 1, inputs, outs, cap, 0, (fuel - 1) as nat)
                }
            },
            Component::Jump(next) => {
                if counter + 1 > c.len() {
                    Some((outs, state))
                } else if fuel == 0 {
                    None
                } else {
                    interp(c, next as int, inputs, outs, cap, counter + 1, (fuel - 1) as nat)
                }
            },
        }
    }
}

/// Fuel only cuts a run short: whatever some fuel completes, more fuel
/// completes identically.
pub proof fn lemma_interp_fuel<I: PartialEq, O>(
    c: Seq<Component<I, O>>,
    state: int,
    inputs: Seq<I>,
    outs: Seq<O>,
    cap: int,
    counter: int,
    f1: nat,
    f2: nat,
)
    requires
        f1 <= f2,
        interp(c, state, inputs, outs, cap, counter, f1) is Some,
    ensures
        interp(c, state, inputs, outs, cap, counter, f2) == interp(
            c,
            state,
            inputs,
            outs,
            cap,
            counter,
            f1,
        ),
    decreases f1,
{
    if 0 <= state < c.len() {
        match c[state] {
            Component::Output(o) => {
                if !(outs.len() >= cap) {
                    lemma_interp_fuel(
                        c,
                        state + 1,
                        inputs,
                        outs.push(o),
                        cap,
                        counter + 1,
                        (f1 - 1) as nat,
                        (f2 - 1) as nat,
                    );
                }
            },
            Component::Input(i, next) => {
                if inputs.len() != 0 {
                    if i.eq_spec(&inputs[0]) {
                        lemma_interp_fuel(
                            c,
                            next as int,
                            inputs.skip(1),
                            outs,
                            cap,
                            0,
                            (f1 - 1) as nat,
                            (f2 - 1) as nat,
                        );
                    } else {
                        lemma_interp_fuel(
                            c,
                            state + 1,
                            inputs,
                            outs,
                            cap,
                            0,
                            (f1 - 1) as nat,
                            (f2 - 1) as nat,
                        );
                    }
                }
            },
            Component::Jump(next) => {
                if !(counter + 1 > c.len()) {
                    lemma_interp_fuel(
                        c,
                        next as int,
                        inputs,
                        outs,
                        cap,
                        counter + 1,
                        (f1 - 1) as nat,
                        (f2 - 1) as nat,
                    );
                }
            },
        }
    }
}

/// What a halting run from `state` produces: the outputs written and
/// the halting state.
pub open spec fn dfa_result<I: PartialEq, O>(
    c: Seq<Component<I, O>>,
    state: int,
    inputs: Seq<I>,
    cap: int,
) -> Option<(Seq<O>, int)> {
    if exists|f: nat| interp(c, state, inputs, Seq::<O>::empty(), cap, 0, f) is Some {
        interp(
            c,
            state,
            inputs,
            Seq::<O>::empty(),
            cap,
            0,
            choose|f: nat| interp(c, state, inputs, Seq::<O>::empty(), cap, 0, f) is Some,
        )
    } else {
        None
    }
}

/// One step of the evaluator, recursing on the fuel the caller's
/// termination witness provides.
fn eval_rec<I: PartialEq, O: Copy>(
    c: &[Component<I, O>],
    state: usize,
    input: &[I],
    in_idx: usize,
    output: &mut [O],
    outc: usize,
    counter: usize,
    Ghost(fuel): Ghost<nat>,
) -> (r: (usize, usize))
    requires
        I::obeys_eq_spec(),
        in_idx <= input@.len(),
        outc <= old(output)@.len(),
        counter as int <= c@.len() + outc,
        c@.len() + old(output)@.len() <= usize::MAX,
        interp(
            c@,
            state as int,
            input@.skip(in_idx as int),
            old(output)@.subrange(0, outc as int),
            old(output)@.len() as int,
            counter as int,
            fuel,
        ) is Some,
    ensures
        final(output)@.len() == old(output)@.len(),
        match interp(
            c@,
            state as int,
            input@.skip(in_idx as int),
            old(output)@.subrange(0, outc as int),
            old(output)@.len() as int,
            counter as int,
            fuel,
        ) {
            Some(res) => {
                &&& outc <= res.0.len() <= old(output)@.len()
                &&& r.0 as int == res.0.len()
                &&& r.1 as int == res.1
                &&& final(output)@ == res.0 + old(output)@.skip(res.0.len() as int)
            },
            None => false,
        },
    decreases fuel,
{
    let ghost pre = output@;
    let ghost rem_in = input@.skip(in_idx as int);
    let ghost outs0 = output@.subrange(0, outc as int);
    proof {
        assert(0 <= state < c@.len());
    }
    let comp = &c[state];
    match comp {
        Component::Output(o) => {
            if outc >= output.len() {
                proof {
                    assert(pre =~= outs0 + pre.skip(outc as int));
                }
                (outc, state)
            } else {
                output[outc] = *o;
                proof {
                    assert(output@.subrange(0, outc as int + 1) =~= outs0.push(*o));
                    assert(output@.subrange(0, outc as int) =~= outs0);
                }
                let r = eval_rec(
                    c,
                    state + 1,
                    input,
                    in_idx,
                    output,
                    outc + 1,
                    counter + 1,
                    Ghost((fuel - 1) as nat),
                );
                proof {
                    let res = interp(
                        c@,
                        state as int,
                        rem_in,
                        outs0,
                        pre.len() as int,
                        counter as int,
                        fuel,
                    )->Some_0;
                    assert(res.0.len() > outc);
                    assert(output@ =~= res.0 + pre.skip(res.0.len() as int)) by {
                        assert(pre.update(outc as int, *o).skip(res.0.len() as int) =~= pre.skip(
                            res.0.len() as int,
                        ));
                    }
                }
                r
            }
        },
        Component::Input(i, next) => {
            if in_idx >= input.len() {
                proof {
                    assert(pre =~= outs0 + pre.skip(outc as int));
                }
                (outc, state)
            } else {
                let to_cmp = &input[in_idx];
                proof {
                    assert(rem_in[0] == input@[in_idx as int]);
                    assert(rem_in.skip(1) =~= input@.skip(in_idx as int + 1));
                }
                if i.eq(to_cmp) {
                    eval_rec(
                        c,
                        *next,
                        input,
                        in_idx + 1,
                        output,
                        outc,
                        0,
                        Ghost((fuel - 1) as nat),
                    )
                } else {
                    eval_rec(
                        c,
                        state + 1,
                        input,
                        in_idx,
                        output,
                        outc,
                        0,
                        Ghost((fuel - 1) as nat),
                    )
                }
            }
        },
        Component::Jump(next) => {
            if counter >= c.len() {
                proof {
                    assert(pre =~= outs0 + pre.skip(outc as int));
                }
                (outc, state)
            } else {
                eval_rec(c, *next, input, in_idx, output, outc, counter + 1, Ghost((fuel - 1) as nat))
            }
        },
    }
}

impl<'a, I: PartialEq, O: Copy> SliceDFA<'a, I, O> {
    pub fn new(components: &'a [Component<I, O>]) -> (r: Self)
        ensures
            r.components == components,
    {
        SliceDFA { components }
    }

    /// Run the components from `state` over `input`, filling `output`
    /// from the front; return how many outputs were written and the
    /// halting state.
    pub fn eval(&self, state: usize, input: &[I], output: &mut [O]) -> (r: (usize, usize))
        requires
            I::obeys_eq_spec(),
            self.components@.len() + old(output)@.len() <= usize::MAX,
            exists|f: nat|
                interp(
                    self.components@,
                    state as int,
                    input@,
                    Seq::<O>::empty(),
                    old(output)@.len() as int,
                    0,
                    f,
                ) is Some,
        ensures
            final(output)@.len() == old(output)@.len(),
            match dfa_result(
                self.components@,
                state as int,
                input@,
                old(output)@.len() as int,
            ) {
                Some(res) => {
                    &&& r.0 as int == res.0.len()
                    &&& r.1 as int == res.1
                    &&& res.0.len() <= old(output)@.len()
                    &&& final(output)@ == res.0 + old(output)@.skip(res.0.len() as int)
                },
                None => false,
            },
    {
        let ghost cv = self.components@;
        let ghost cap = output@.len() as int;
        let ghost fuel = choose|f: nat|
            interp(cv, state as int, input@, Seq::<O>::empty(), cap, 0, f) is Some;
        proof {
            assert(input@.skip(0) =~= input@);
            assert(output@.subrange(0, 0) =~= Seq::<O>::empty());
        }
        let r = eval_rec(self.components, state, input, 0, output, 0, 0, Ghost(fuel));
        proof {
            let f2 = choose|f: nat|
                interp(cv, state as int, input@, Seq::<O>::empty(), cap, 0, f) is Some;
            if fuel <= f2 {
                lemma_interp_fuel(cv, state as int, input@, Seq::<O>::empty(), cap, 0, fuel, f2);
            } else {
                lemma_interp_fuel(cv, state as int, input@, Seq::<O>::empty(), cap, 0, f2, fuel);
            }
        }
        r
    }
}

} // verus!
