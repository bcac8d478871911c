use vstd::prelude::*;
use vstd::seq_lib::*;
use crate::error::BFIError;

verus! {

/// Number of cells on the tape.
pub const TAPE_LEN: usize = 32768;

/// How many times `tok` occurs in `s`.
pub open spec fn count_occ(s: Seq<char>, tok: char) -> int
    decreases s.len(),
{
    if s.len() == 0 {
        0
    } else {
        count_occ(s.drop_last(), tok) + if s.last() == tok {
            1int
        } else {
            0int
        }
    }
}

/// Extending a prefix by one character extends its count by one exactly when
/// that character is the counted token.
pub proof fn lemma_count_occ_take_step(s: Seq<char>, tok: char, i: int)
    requires
        0 <= i < s.len(),
    ensures
        count_occ(s.take(i + 1), tok) == count_occ(s.take(i), tok) + if s[i] == tok {
            1int
        } else {
            0int
        },
{
    assert(s.take(i + 1).drop_last() =~= s.take(i));
    assert(s.take(i + 1).last() == s[i]);
}

/// The cell's value read back as the unsigned byte with the same bit pattern.
pub open spec fn cell_to_byte(v: i8) -> u8 {
    if v >= 0 {
        v as u8
    } else {
        (v + 256) as u8
    }
}

/// The input byte written as the signed cell with the same bit pattern.
pub open spec fn byte_to_cell(b: u8) -> i8 {
    if b <= 127 {
        b as i8
    } else {
        (b - 256) as i8
    }
}

/// The forward half of jump resolution, one scanned position at a time:
/// starting at `i` with `depth` bracket pairs still open, the index of the
/// close bracket that brings the depth back to zero, or `s.len()` when the
/// text ends before one does.
pub open spec fn fwd_scan(s: Seq<char>, i: int, depth: nat) -> int
    decreases s.len() - i,
{
    if i < 0 || i >= s.len() {
        s.len() as int
    } else if s[i] == ']' {
        if depth == 0 {
            i
        } else {
            fwd_scan(s, i + 1, (depth - 1) as nat)
        }
    } else if s[i] == '[' {
        fwd_scan(s, i + 1, depth + 1)
    } else {
        fwd_scan(s, i + 1, depth)
    }
}

/// The backward half of jump resolution: starting at `i` with `depth` bracket
/// pairs still open, one less than the index of the open bracket that brings
/// the depth back to zero — the cursor rests one before the match, so the
/// loop's own increment lands on it — or -1 when the scan passes the start.
pub open spec fn bwd_scan(s: Seq<char>, i: int, depth: nat) -> int
    decreases i + 1,
{
    if i < 0 || i >= s.len() {
        -1
    } else if s[i] == '[' {
        if depth == 0 {
            i - 1
        } else {
            bwd_scan(s, i - 1, (depth - 1) as nat)
        }
    } else if s[i] == ']' {
        bwd_scan(s, i - 1, depth + 1)
    } else {
        bwd_scan(s, i - 1, depth)
    }
}

/// Counting distributes over putting two pieces of text side by side.
pub proof fn lemma_count_occ_concat(a: Seq<char>, b: Seq<char>, tok: char)
    ensures
        count_occ(a + b, tok) == count_occ(a, tok) + count_occ(b, tok),
    decreases b.len(),
{
    if b.len() == 0 {
        assert(a + b =~= a);
    } else {
        lemma_count_occ_concat(a, b.drop_last(), tok);
        assert((a + b).drop_last() =~= a + b.drop_last());
        assert((a + b).last() == b.last());
    }
}

/// Splitting one scanned position off the front of a stretch of text splits
/// its count.
pub proof fn lemma_count_occ_split_first(s: Seq<char>, i: int, j: int, tok: char)
    requires
        0 <= i < j <= s.len(),
    ensures
        count_occ(s.subrange(i, j), tok) == count_occ(s.subrange(i + 1, j), tok) + if s[i] == tok {
            1int
        } else {
            0int
        },
{
    lemma_count_occ_concat(s.subrange(i, i + 1), s.subrange(i + 1, j), tok);
    assert(s.subrange(i, j) =~= s.subrange(i, i + 1) + s.subrange(i + 1, j));
    assert(s.subrange(i, i + 1).drop_last() =~= Seq::<char>::empty());
    assert(s.subrange(i, i + 1).last() == s[i]);
    assert(count_occ(Seq::<char>::empty(), tok) == 0);
    assert(count_occ(s.subrange(i, i + 1), tok) == if s[i] == tok {
        1int
    } else {
        0int
    });
}

/// A forward scan never lands before its start nor past the end of the text.
pub proof fn lemma_fwd_scan_bounds(s: Seq<char>, i: int, depth: nat)
    requires
        i <= s.len(),
    ensures
        i <= fwd_scan(s, i, depth) <= s.len(),
    decreases s.len() - i,
{
    if 0 <= i < s.len() {
        if s[i] == ']' {
            if depth > 0 {
                lemma_fwd_scan_bounds(s, i + 1, (depth - 1) as nat);
            }
        } else if s[i] == '[' {
            lemma_fwd_scan_bounds(s, i + 1, depth + 1);
        } else {
            lemma_fwd_scan_bounds(s, i + 1, depth);
        }
    }
}

/// A backward scan never lands below -1 nor at or past its start.
pub proof fn lemma_bwd_scan_bounds(s: Seq<char>, i: int, depth: nat)
    ensures
        -1 <= bwd_scan(s, i, depth),
        bwd_scan(s, i, depth) == -1 || bwd_scan(s, i, depth) <= i - 1,
    decreases i + 1,
{
    if 0 <= i < s.len() {
        if s[i] == '[' {
            if depth > 0 {
                lemma_bwd_scan_bounds(s, i - 1, (depth - 1) as nat);
            }
        } else if s[i] == ']' {
            lemma_bwd_scan_bounds(s, i - 1, depth + 1);
        } else {
            lemma_bwd_scan_bounds(s, i - 1, depth);
        }
    }
}

/// Jump correctness, forward: a forward scan that lands inside the text lands
/// on a close bracket, and the brackets strictly between the scan's start and
/// the landing pair off — every nested pair opened on the way, and the `depth`
/// pairs already open at the start, is closed before it — while no earlier
/// close bracket balances out, so sibling pairs and nested pairs are never
/// conflated and the landing is the structural match.
pub proof fn lemma_fwd_scan_match(s: Seq<char>, i: int, depth: nat)
    requires
        0 <= i <= s.len(),
    ensures
        fwd_scan(s, i, depth) < s.len() ==> ({
            let j = fwd_scan(s, i, depth);
            &&& i <= j
            &&& s[j] == ']'
            &&& count_occ(s.subrange(i, j), ']') == count_occ(s.subrange(i, j), '[') + depth
            &&& forall|k: int|
                i <= k < j && s[k] == ']' ==> count_occ(#[trigger] s.subrange(i, k), ']')
                    < count_occ(s.subrange(i, k), '[') + depth
        }),
    decreases s.len() - i,
{
    lemma_fwd_scan_bounds(s, i, depth);
    if i < s.len() {
        let j = fwd_scan(s, i, depth);
        if s[i] == ']' && depth == 0 {
            assert(s.subrange(i, j) =~= Seq::<char>::empty());
        } else if j < s.len() {
            if s[i] == ']' {
                lemma_fwd_scan_match(s, i + 1, (depth - 1) as nat);
            } else if s[i] == '[' {
                lemma_fwd_scan_match(s, i + 1, depth + 1);
            } else {
                lemma_fwd_scan_match(s, i + 1, depth);
            }
            lemma_fwd_scan_bounds(s, i + 1, if s[i] == ']' {
                (depth - 1) as nat
            } else if s[i] == '[' {
                depth + 1
            } else {
                depth
            });
            lemma_count_occ_split_first(s, i, j, '[');
            lemma_count_occ_split_first(s, i, j, ']');
            assert forall|k: int| i <= k < j && s[k] == ']' implies count_occ(
                #[trigger] s.subrange(i, k),
                ']',
            ) < count_occ(s.subrange(i, k), '[') + depth by {
                if k == i {
                    assert(s.subrange(i, i) =~= Seq::<char>::empty());
                    assert(count_occ(Seq::<char>::empty(), '[') == 0);
                    assert(count_occ(Seq::<char>::empty(), ']') == 0);
                } else {
                    lemma_count_occ_split_first(s, i, k, '[');
                    lemma_count_occ_split_first(s, i, k, ']');
                    assert(count_occ(s.subrange(i + 1, k), ']') < count_occ(
                        s.subrange(i + 1, k),
                        '[',
                    ) + (if s[i] == ']' {
                        (depth - 1) as nat
                    } else if s[i] == '[' {
                        depth + 1
                    } else {
                        depth
                    }));
                }
            }
        }
    }
}

/// Jump correctness, backward: a backward scan that rests inside the text
/// rests one before an open bracket, the brackets strictly between that match
/// and the scan's start pair off in the same way as on the forward side, and
/// no open bracket nearer the scan's start balances out.
pub proof fn lemma_bwd_scan_match(s: Seq<char>, i: int, depth: nat)
    requires
        i < s.len(),
    ensures
        bwd_scan(s, i, depth) >= 0 ==> ({
            let m = bwd_scan(s, i, depth) + 1;
            &&& m <= i
            &&& s[m] == '['
            &&& count_occ(s.subrange(m + 1, i + 1), '[') == count_occ(s.subrange(m + 1, i + 1), ']')
                + depth
            &&& forall|k: int|
                m < k <= i && s[k] == '[' ==> count_occ(#[trigger] s.subrange(k + 1, i + 1), '[')
                    < count_occ(s.subrange(k + 1, i + 1), ']') + depth
        }),
    decreases i + 1,
{
    lemma_bwd_scan_bounds(s, i, depth);
    if 0 <= i {
        let m = bwd_scan(s, i, depth) + 1;
        if s[i] == '[' && depth == 0 {
            assert(s.subrange(i + 1, i + 1) =~= Seq::<char>::empty());
        } else if bwd_scan(s, i, depth) >= 0 {
            let prior = if s[i] == '[' {
                (depth - 1) as nat
            } else if s[i] == ']' {
                depth + 1
            } else {
                depth
            };
            if s[i] == '[' {
                lemma_bwd_scan_match(s, i - 1, (depth - 1) as nat);
            } else if s[i] == ']' {
                lemma_bwd_scan_match(s, i - 1, depth + 1);
            } else {
                lemma_bwd_scan_match(s, i - 1, depth);
            }
            lemma_bwd_scan_bounds(s, i - 1, prior);
            assert(s.subrange(m + 1, i + 1).drop_last() =~= s.subrange(m + 1, i));
            assert(s.subrange(m + 1, i + 1).last() == s[i]);
            assert forall|k: int| m < k <= i && s[k] == '[' implies count_occ(
                #[trigger] s.subrange(k + 1, i + 1),
                '[',
            ) < count_occ(s.subrange(k + 1, i + 1), ']') + depth by {
                if k == i {
                    assert(s.subrange(i + 1, i + 1) =~= Seq::<char>::empty());
                    assert(count_occ(Seq::<char>::empty(), '[') == 0);
                    assert(count_occ(Seq::<char>::empty(), ']') == 0);
                } else {
                    assert(s.subrange(k + 1, i + 1).drop_last() =~= s.subrange(k + 1, i));
                    assert(s.subrange(k + 1, i + 1).last() == s[i]);
                    assert(count_occ(s.subrange(k + 1, i), '[') < count_occ(
                        s.subrange(k + 1, i),
                        ']',
                    ) + prior);
                }
            }
        }
    }
}

/// One run's whole abstract state: the tape, the data pointer, the program
/// cursor, how many input bytes were consumed, and every byte written so far.
#[verifier::ext_equal]
pub struct State {
    pub tape: Seq<i8>,
    pub p: int,
    pub pc: int,
    pub ipos: int,
    pub out: Seq<u8>,
}

/// What one dispatch step leaves behind: the next state, or — since a failing
/// operation changes nothing — the state the failure was found in, and the
/// failure itself.
pub enum StepOutcome {
    Next(State),
    Fail(State, BFIError),
}

/// One step of the fetch-dispatch-execute loop, read at `s.pc`: the operation
/// for the token there, followed by the loop's own cursor increment. Unknown
/// characters are no-ops; an exhausted input port reads as a zero byte; the
/// bracket tokens re-seat the cursor through the scans above.
pub open spec fn step(prog: Seq<char>, inp: Seq<u8>, s: State) -> StepOutcome {
    let t = prog[s.pc];
    if t == '>' {
        if s.p + 1 >= s.tape.len() {
            StepOutcome::Fail(s, BFIError::OutOfMemory)
        } else {
            StepOutcome::Next(State { p: s.p + 1, pc: s.pc + 1, ..s })
        }
    } else if t == '<' {
        if s.p <= 0 {
            StepOutcome::Fail(s, BFIError::OutOfMemory)
        } else {
            StepOutcome::Next(State { p: s.p - 1, pc: s.pc + 1, ..s })
        }
    } else if t == '+' {
        if s.tape[s.p] == i8::MAX {
            StepOutcome::Fail(s, BFIError::ArithmeticOverflow)
        } else {
            StepOutcome::Next(
                State { tape: s.tape.update(s.p, (s.tape[s.p] + 1) as i8), pc: s.pc + 1, ..s },
            )
        }
    } else if t == '-' {
        if s.tape[s.p] == i8::MIN {
            StepOutcome::Fail(s, BFIError::ArithmeticOverflow)
        } else {
            StepOutcome::Next(
                State { tape: s.tape.update(s.p, (s.tape[s.p] - 1) as i8), pc: s.pc + 1, ..s },
            )
        }
    } else if t == '.' {
        StepOutcome::Next(State { out: s.out.push(cell_to_byte(s.tape[s.p])), pc: s.pc + 1, ..s })
    } else if t == ',' {
        if s.ipos < inp.len() {
            StepOutcome::Next(
                State {
                    tape: s.tape.update(s.p, byte_to_cell(inp[s.ipos])),
                    ipos: s.ipos + 1,
                    pc: s.pc + 1,
                    ..s
                },
            )
        } else {
            StepOutcome::Next(State { tape: s.tape.update(s.p, 0i8), pc: s.pc + 1, ..s })
        }
    } else if t == '[' {
        if s.tape[s.p] == 0 {
            StepOutcome::Next(State { pc: fwd_scan(prog, s.pc + 1, 0) + 1, ..s })
        } else {
            StepOutcome::Next(State { pc: s.pc + 1, ..s })
        }
    } else if t == ']' {
        StepOutcome::Next(State { pc: bwd_scan(prog, s.pc - 1, 0) + 1, ..s })
    } else {
        StepOutcome::Next(State { pc: s.pc + 1, ..s })
    }
}

/// The run after `n` steps from `s0`. A failure is final, and so is a state
/// whose cursor has left the program text: both are carried along unchanged.
pub open spec fn run_n(prog: Seq<char>, inp: Seq<u8>, s0: State, n: nat) -> StepOutcome
    decreases n,
{
    if n == 0 {
        StepOutcome::Next(s0)
    } else {
        match run_n(prog, inp, s0, (n - 1) as nat) {
            StepOutcome::Next(s) => {
                if 0 <= s.pc < prog.len() {
                    step(prog, inp, s)
                } else {
                    StepOutcome::Next(s)
                }
            },
            StepOutcome::Fail(s, e) => StepOutcome::Fail(s, e),
        }
    }
}

/// After `n` steps the run is at rest: it has failed, or its cursor has left
/// the program text.
pub open spec fn settled(prog: Seq<char>, inp: Seq<u8>, s0: State, n: nat) -> bool {
    match run_n(prog, inp, s0, n) {
        StepOutcome::Next(s) => !(0 <= s.pc < prog.len()),
        StepOutcome::Fail(_, _) => true,
    }
}

/// A run at rest stays exactly where it is: stepping further changes nothing.
pub proof fn lemma_settled_stable(prog: Seq<char>, inp: Seq<u8>, s0: State, m: nat, n: nat)
    requires
        m <= n,
        settled(prog, inp, s0, m),
    ensures
        run_n(prog, inp, s0, n) == run_n(prog, inp, s0, m),
        settled(prog, inp, s0, n),
    decreases n,
{
    if m < n {
        lemma_settled_stable(prog, inp, s0, m, (n - 1) as nat);
    }
}

/// No single step lets the machine escape its bounds: the tape keeps its
/// length, the data pointer stays on the tape, the cursor stays within one
/// position of the text, consumed input never exceeds what the port holds,
/// output only grows — and a failing step leaves the state exactly as it was.
pub proof fn lemma_step_preserves_bounds(prog: Seq<char>, inp: Seq<u8>, s: State)
    requires
        0 <= s.p < s.tape.len(),
        0 <= s.pc < prog.len(),
        0 <= s.ipos <= inp.len(),
    ensures
        (match step(prog, inp, s) {
            StepOutcome::Next(s2) => {
                &&& s2.tape.len() == s.tape.len()
                &&& 0 <= s2.p < s2.tape.len()
                &&& 0 <= s2.pc <= prog.len() + 1
                &&& 0 <= s2.ipos <= inp.len()
                &&& s.out.is_prefix_of(s2.out)
            },
            StepOutcome::Fail(s2, e) => s2 == s && (e == BFIError::OutOfMemory || e
                == BFIError::ArithmeticOverflow),
        }),
{
    let t = prog[s.pc];
    if t == '[' {
        lemma_fwd_scan_bounds(prog, s.pc + 1, 0);
    } else if t == ']' {
        lemma_bwd_scan_bounds(prog, s.pc - 1, 0);
    }
    match step(prog, inp, s) {
        StepOutcome::Next(s2) => {
            assert(s.out.is_prefix_of(s2.out)) by {
                assert(s.out =~= s.out.subrange(0, s.out.len() as int));
                if s.out.len() < s2.out.len() {
                    assert(s.out =~= s2.out.subrange(0, s.out.len() as int));
                }
            }
        },
        StepOutcome::Fail(_, _) => {},
    }
}

/// However many steps a run takes, the bounds of `lemma_step_preserves_bounds`
/// hold of where it has got to: in particular the data pointer never leaves
/// the tape, whatever the program.
pub proof fn lemma_run_preserves_bounds(prog: Seq<char>, inp: Seq<u8>, s0: State, n: nat)
    requires
        0 <= s0.p < s0.tape.len(),
        0 <= s0.pc,
        0 <= s0.ipos <= inp.len(),
    ensures
        (match run_n(prog, inp, s0, n) {
            StepOutcome::Next(s) => {
                &&& s.tape.len() == s0.tape.len()
                &&& 0 <= s.p < s.tape.len()
                &&& 0 <= s.pc
                &&& 0 <= s.ipos <= inp.len()
                &&& s0.out.is_prefix_of(s.out)
            },
            StepOutcome::Fail(s, e) => {
                &&& s.tape.len() == s0.tape.len()
                &&& 0 <= s.p < s.tape.len()
                &&& 0 <= s.pc
                &&& 0 <= s.ipos <= inp.len()
                &&& s0.out.is_prefix_of(s.out)
                &&& (e == BFIError::OutOfMemory || e == BFIError::ArithmeticOverflow)
            },
        }),
    decreases n,
{
    assert(s0.out.is_prefix_of(s0.out)) by {
        assert(s0.out =~= s0.out.subrange(0, s0.out.len() as int));
    }
    if n > 0 {
        lemma_run_preserves_bounds(prog, inp, s0, (n - 1) as nat);
        match run_n(prog, inp, s0, (n - 1) as nat) {
            StepOutcome::Next(s) => {
                if 0 <= s.pc < prog.len() {
                    lemma_step_preserves_bounds(prog, inp, s);
                    match step(prog, inp, s) {
                        StepOutcome::Next(s2) => {
                            assert(s0.out.is_prefix_of(s2.out)) by {
                                assert(s0.out =~= s.out.subrange(0, s0.out.len() as int));
                                assert(s.out =~= s2.out.subrange(0, s.out.len() as int));
                                assert(s0.out =~= s2.out.subrange(0, s0.out.len() as int));
                            }
                        },
                        StepOutcome::Fail(_, _) => {},
                    }
                }
            },
            StepOutcome::Fail(_, _) => {},
        }
    }
}

} // verus!
