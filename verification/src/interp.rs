use vstd::prelude::*;
use crate::error::BFIError;
use crate::semantics::TAPE_LEN;
use crate::semantics::byte_to_cell;
use crate::semantics::cell_to_byte;
use crate::semantics::bwd_scan;
use crate::semantics::count_occ;
use crate::semantics::fwd_scan;
use crate::semantics::lemma_count_occ_take_step;
use crate::semantics::lemma_bwd_scan_bounds;
use crate::semantics::lemma_fwd_scan_bounds;
use crate::semantics::lemma_settled_stable;
use crate::semantics::run_n;
use crate::semantics::settled;
use crate::semantics::step;
use crate::semantics::State;
use crate::semantics::StepOutcome;

verus! {

/// The interpreter instance: one program, one tape, and the two indices the
/// execution loop moves over them.
pub struct BFI {
    /// The tape: `TAPE_LEN` signed byte cells.
    pub x: Vec<i8>,
    /// The program text, one character per position.
    pub c: Vec<char>,
    /// The data pointer: always a valid tape index.
    pub p: usize,
    /// The program cursor. -1 is the transient seat one before the first
    /// character, left by a backward jump whose match is the program's start;
    /// one past the text's end is where the loop's final increment rests.
    pub pc: isize,
}

impl BFI {
    /// The instance is sound to run: the tape is whole, the data pointer is
    /// on it, the cursor is at most one position outside the text, and the
    /// text is short enough for the cursor's arithmetic (a `Vec` never holds
    /// more than `isize::MAX` bytes, four per character).
    pub open spec fn wf(self) -> bool {
        &&& self.x@.len() == TAPE_LEN
        &&& self.p < TAPE_LEN
        &&& -1 <= self.pc <= self.c@.len() + 1
        &&& 4 * self.c@.len() <= isize::MAX as int
    }

    /// A fresh instance over the given program: a zeroed tape, and both the
    /// data pointer and the program cursor at their first positions.
    pub fn new(s: String) -> (r: BFI)
        ensures
            r.wf(),
            r.c@ == s@,
            r.x@ == Seq::new(TAPE_LEN as nat, |k: int| 0i8),
            r.p == 0,
            r.pc == 0,
    {
        let c = chars_of(s.as_str());
        let mut x: Vec<i8> = Vec::new();
        let mut i: usize = 0;
        while i < TAPE_LEN
            invariant
                i <= TAPE_LEN,
                x@.len() == i,
                forall|k: int| 0 <= k < i ==> x@[k] == 0i8,
            decreases TAPE_LEN - i,
        {
            x.push(0);
            i = i + 1;
        }
        proof {
            assert(x@ =~= Seq::new(TAPE_LEN as nat, |k: int| 0i8));
        }
        BFI { x, c, p: 0, pc: 0 }
    }

    /// The character under the program cursor, or nothing when the cursor
    /// rests outside the text.
    pub fn current_c(&self) -> (r: Option<char>)
        ensures
            r == (if 0 <= self.pc < self.c@.len() {
                Some(self.c@[self.pc as int])
            } else {
                None::<char>
            }),
    {
        if self.pc >= 0 && (self.pc as usize) < self.c.len() {
            Some(self.c[self.pc as usize])
        } else {
            None
        }
    }

    /// The pre-execution structural check: count both bracket tokens over the
    /// whole text, and fail on any imbalance — more opens than closes, or the
    /// reverse. Equal counts pass whatever their order, so a text such as `][`
    /// passes: the check is deliberately one of balance, not of nesting.
    pub fn check_syntax(&self) -> (r: Result<(), BFIError>)
        ensures
            r == (if count_occ(self.c@, '[') > count_occ(self.c@, ']') {
                Err::<(), BFIError>(BFIError::MissingClosingBrackets)
            } else if count_occ(self.c@, '[') < count_occ(self.c@, ']') {
                Err::<(), BFIError>(BFIError::MissingOpeningBrackets)
            } else {
                Ok::<(), BFIError>(())
            }),
    {
        let mut ob: usize = 0;
        let mut cb: usize = 0;
        let mut i: usize = 0;
        while i < self.c.len()
            invariant
                i <= self.c@.len(),
                ob <= i,
                cb <= i,
                ob == count_occ(self.c@.take(i as int), '['),
                cb == count_occ(self.c@.take(i as int), ']'),
            decreases self.c@.len() - i,
        {
            let ch = self.c[i];
            proof {
                lemma_count_occ_take_step(self.c@, '[', i as int);
                lemma_count_occ_take_step(self.c@, ']', i as int);
            }
            if ch == '[' {
                ob = ob + 1;
            } else if ch == ']' {
                cb = cb + 1;
            }
            i = i + 1;
        }
        proof {
            assert(self.c@.take(self.c@.len() as int) =~= self.c@);
        }
        if ob > cb {
            Err(BFIError::MissingClosingBrackets)
        } else if ob < cb {
            Err(BFIError::MissingOpeningBrackets)
        } else {
            Ok(())
        }
    }

    /// Move the data pointer one cell right; at the tape's last cell the move
    /// fails and the pointer does not change.
    pub fn increment_pointer(&mut self) -> (r: Result<(), BFIError>)
        requires
            old(self).wf(),
        ensures
            final(self).wf(),
            final(self).x@ == old(self).x@,
            final(self).c@ == old(self).c@,
            final(self).pc == old(self).pc,
            old(self).p + 1 < TAPE_LEN ==> r == Ok::<(), BFIError>(()) && final(self).p == old(self).p
                + 1,
            old(self).p + 1 >= TAPE_LEN ==> r == Err::<(), BFIError>(BFIError::OutOfMemory)
                && final(self).p == old(self).p,
    {
        if self.p + 1 >= self.x.len() {
            Err(BFIError::OutOfMemory)
        } else {
            self.p = self.p + 1;
            Ok(())
        }
    }

    /// Move the data pointer one cell left; at the tape's first cell the move
    /// fails and the pointer does not change.
    pub fn decrement_pointer(&mut self) -> (r: Result<(), BFIError>)
        requires
            old(self).wf(),
        ensures
            final(self).wf(),
            final(self).x@ == old(self).x@,
            final(self).c@ == old(self).c@,
            final(self).pc == old(self).pc,
            old(self).p > 0 ==> r == Ok::<(), BFIError>(()) && final(self).p == old(self).p - 1,
            old(self).p == 0 ==> r == Err::<(), BFIError>(BFIError::OutOfMemory) && final(self).p == old(self).p,
    {
        if self.p == 0 {
            Err(BFIError::OutOfMemory)
        } else {
            self.p = self.p - 1;
            Ok(())
        }
    }

    /// Add one to the current cell; at the largest representable value the
    /// step fails and the cell does not change.
    pub fn increment_byte_at_pointer(&mut self) -> (r: Result<(), BFIError>)
        requires
            old(self).wf(),
        ensures
            final(self).wf(),
            final(self).c@ == old(self).c@,
            final(self).p == old(self).p,
            final(self).pc == old(self).pc,
            old(self).x@[old(self).p as int] == i8::MAX ==> r == Err::<(), BFIError>(
                BFIError::ArithmeticOverflow,
            ) && final(self).x@ == old(self).x@,
            old(self).x@[old(self).p as int] != i8::MAX ==> r == Ok::<(), BFIError>(()) && final(self).x@
                == old(self).x@.update(
                old(self).p as int,
                (old(self).x@[old(self).p as int] + 1) as i8,
            ),
    {
        if self.x[self.p] == i8::MAX {
            Err(BFIError::ArithmeticOverflow)
        } else {
            self.x[self.p] = self.x[self.p] + 1;
            Ok(())
        }
    }

    /// Take one from the current cell; at the smallest representable value
    /// the step fails and the cell does not change.
    pub fn decrement_byte_at_pointer(&mut self) -> (r: Result<(), BFIError>)
        requires
            old(self).wf(),
        ensures
            final(self).wf(),
            final(self).c@ == old(self).c@,
            final(self).p == old(self).p,
            final(self).pc == old(self).pc,
            old(self).x@[old(self).p as int] == i8::MIN ==> r == Err::<(), BFIError>(
                BFIError::ArithmeticOverflow,
            ) && final(self).x@ == old(self).x@,
            old(self).x@[old(self).p as int] != i8::MIN ==> r == Ok::<(), BFIError>(()) && final(self).x@
                == old(self).x@.update(
                old(self).p as int,
                (old(self).x@[old(self).p as int] - 1) as i8,
            ),
    {
        if self.x[self.p] == i8::MIN {
            Err(BFIError::ArithmeticOverflow)
        } else {
            self.x[self.p] = self.x[self.p] - 1;
            Ok(())
        }
    }
    /// Write the current cell, reinterpreted as an unsigned byte, to the
    /// output port.
    pub fn output(&self, out: &mut Vec<u8>)
        requires
            self.wf(),
        ensures
            final(out)@ == old(out)@.push(cell_to_byte(self.x@[self.p as int])),
    {
        let v = self.x[self.p];
        let b: u8 = if v >= 0 {
            v as u8
        } else {
            ((v as i32) + 256) as u8
        };
        out.push(b);
    }

    /// Read one byte from the input port into the current cell, reinterpreted
    /// as a signed value, and advance the port's position; an exhausted port
    /// reads as a zero byte and its position stays put.
    pub fn input(&mut self, src: &Vec<u8>, pos: &mut usize)
        requires
            old(self).wf(),
        ensures
            final(self).wf(),
            final(self).c@ == old(self).c@,
            final(self).p == old(self).p,
            final(self).pc == old(self).pc,
            *old(pos) < src@.len() ==> final(self).x@ == old(self).x@.update(
                old(self).p as int,
                byte_to_cell(src@[*old(pos) as int]),
            ) && *final(pos) == *old(pos) + 1,
            *old(pos) >= src@.len() ==> final(self).x@ == old(self).x@.update(
                old(self).p as int,
                0i8,
            ) && *final(pos) == *old(pos),
    {
        if *pos < src.len() {
            let b = src[*pos];
            let v: i8 = if b <= 127 {
                b as i8
            } else {
                ((b as i32) - 256) as i8
            };
            self.x[self.p] = v;
            *pos = *pos + 1;
        } else {
            self.x[self.p] = 0;
        }
    }

    /// Forward jump resolution at an open bracket: with the current cell
    /// nonzero nothing moves, and execution falls through into the loop body.
    /// With it zero, scan forward over the text tracking nesting depth and
    /// seat the cursor on the close bracket that matches — where no text
    /// remains to hold one, one past the end of the text.
    #[verifier::loop_isolation(false)]
    pub fn start_jump(&mut self)
        requires
            old(self).wf(),
            0 <= old(self).pc < old(self).c@.len(),
        ensures
            final(self).wf(),
            final(self).x@ == old(self).x@,
            final(self).c@ == old(self).c@,
            final(self).p == old(self).p,
            old(self).x@[old(self).p as int] != 0 ==> final(self).pc == old(self).pc,
            old(self).x@[old(self).p as int] == 0 ==> final(self).pc == fwd_scan(
                old(self).c@,
                old(self).pc + 1,
                0,
            ),
    {
        if self.x[self.p] == 0 {
            self.pc = self.pc + 1;
            let mut l: usize = 0;
            while (self.pc as usize) < self.c.len() && (l > 0 || self.c[self.pc as usize] != ']')
                invariant
                    0 < self.pc <= self.c@.len(),
                    l <= self.pc,
                    self.x@ == old(self).x@,
                    self.c@ == old(self).c@,
                    self.p == old(self).p,
                    fwd_scan(self.c@, self.pc as int, l as nat) == fwd_scan(
                        old(self).c@,
                        old(self).pc + 1,
                        0,
                    ),
                decreases self.c@.len() - self.pc,
            {
                let ch = self.c[self.pc as usize];
                if ch == '[' {
                    l = l + 1;
                } else if ch == ']' {
                    l = l - 1;
                }
                self.pc = self.pc + 1;
            }
        }
    }

    /// Backward jump resolution at a close bracket, taken unconditionally:
    /// scan backward over the text tracking nesting depth, and seat the cursor
    /// one before the open bracket that matches, so that the loop's own
    /// increment lands on the match and re-evaluates it. A scan that passes
    /// the start of the text rests at the sentinel seat, one before the first
    /// character.
    #[verifier::loop_isolation(false)]
    pub fn end_jump(&mut self)
        requires
            old(self).wf(),
            0 <= old(self).pc <= old(self).c@.len(),
        ensures
            final(self).wf(),
            final(self).x@ == old(self).x@,
            final(self).c@ == old(self).c@,
            final(self).p == old(self).p,
            final(self).pc == bwd_scan(old(self).c@, old(self).pc - 1, 0),
    {
        self.pc = self.pc - 1;
        let mut l: usize = 0;
        while self.pc >= 0 && (l > 0 || self.c[self.pc as usize] != '[')
            invariant
                -1 <= self.pc < old(self).pc,
                l <= old(self).pc - 1 - self.pc,
                self.x@ == old(self).x@,
                self.c@ == old(self).c@,
                self.p == old(self).p,
                bwd_scan(self.c@, self.pc as int, l as nat) == bwd_scan(
                    old(self).c@,
                    old(self).pc - 1,
                    0,
                ),
            decreases self.pc + 1,
        {
            let ch = self.c[self.pc as usize];
            if ch == ']' {
                l = l + 1;
            } else if ch == '[' {
                l = l - 1;
            }
            self.pc = self.pc - 1;
        }
        if self.pc >= 0 {
            self.pc = self.pc - 1;
        }
    }

    /// One whole run: check the syntax, then fetch, dispatch and execute from
    /// the text's first position until the cursor leaves the text or an
    /// operation fails, reading and writing single bytes on the two ports.
    /// The result, the state left behind and the bytes written are exactly
    /// those of the abstract machine's run from `start_state`. The run must
    /// come to rest within some number of steps: an endless loop is a valid
    /// program, but no termination measure can cover it, and on such a
    /// program this function — like the run it mirrors — never returns.
    #[verifier::loop_isolation(false)]
    pub fn interpret(&mut self, input: &Vec<u8>, output: &mut Vec<u8>) -> (r: Result<
        (),
        BFIError,
    >)
        requires
            old(self).wf(),
            count_occ(old(self).c@, '[') == count_occ(old(self).c@, ']') ==> exists|n: nat|
                settled(old(self).c@, input@, start_state(*old(self), old(output)@), n),
        ensures
            final(self).wf(),
            final(self).c@ == old(self).c@,
            count_occ(old(self).c@, '[') > count_occ(old(self).c@, ']') ==> r == Err::<
                (),
                BFIError,
            >(BFIError::MissingClosingBrackets) && *final(self) == *old(self) && final(output)@
                == old(output)@,
            count_occ(old(self).c@, '[') < count_occ(old(self).c@, ']') ==> r == Err::<
                (),
                BFIError,
            >(BFIError::MissingOpeningBrackets) && *final(self) == *old(self) && final(output)@
                == old(output)@,
            count_occ(old(self).c@, '[') == count_occ(old(self).c@, ']') ==> exists|n: nat|
                run_matches(
                    old(self).c@,
                    input@,
                    start_state(*old(self), old(output)@),
                    n,
                    *final(self),
                    final(output)@,
                    r,
                ),
    {
        match self.check_syntax() {
            Err(e) => {
                return Err(e);
            },
            Ok(()) => {},
        }
        let ghost prog = self.c@;
        let ghost inp = input@;
        let ghost s0 = start_state(*old(self), old(output)@);
        let ghost total = choose|k: nat| settled(prog, inp, s0, k);
        self.pc = 0;
        let mut ipos: usize = 0;
        let ghost mut n: nat = 0;
        proof {
            assert(mid_state(*self, ipos as int, output@) =~= s0);
        }
        while self.pc >= 0 && (self.pc as usize) < self.c.len()
            invariant
                self.wf(),
                self.c@ == prog,
                0 <= self.pc,
                ipos <= inp.len(),
                n <= total,
                settled(prog, inp, s0, total),
                run_n(prog, inp, s0, n) == StepOutcome::Next(
                    mid_state(*self, ipos as int, output@),
                ),
            decreases total - n,
        {
            proof {
                if n >= total {
                    lemma_settled_stable(prog, inp, s0, total, n);
                    assert(false);
                }
            }
            let ghost pre = mid_state(*self, ipos as int, output@);
            let t = self.current_c();
            let step_r: Result<(), BFIError> = match t {
                Some('>') => self.increment_pointer(),
                Some('<') => self.decrement_pointer(),
                Some('+') => self.increment_byte_at_pointer(),
                Some('-') => self.decrement_byte_at_pointer(),
                Some('.') => {
                    self.output(output);
                    Ok(())
                },
                Some(',') => {
                    self.input(input, &mut ipos);
                    Ok(())
                },
                Some('[') => {
                    self.start_jump();
                    Ok(())
                },
                Some(']') => {
                    self.end_jump();
                    Ok(())
                },
                _ => Ok(()),
            };
            match step_r {
                Err(e) => {
                    proof {
                        assert(step(prog, inp, pre) == StepOutcome::Fail(pre, e));
                        assert(run_n(prog, inp, s0, n + 1) == StepOutcome::Fail(pre, e));
                        assert(run_matches(
                            prog,
                            inp,
                            s0,
                            n + 1,
                            *self,
                            output@,
                            Err::<(), BFIError>(e),
                        ));
                    }
                    return Err(e);
                },
                Ok(()) => {},
            }
            proof {
                lemma_fwd_scan_bounds(prog, pre.pc + 1, 0);
                lemma_bwd_scan_bounds(prog, pre.pc - 1, 0);
            }
            self.pc = self.pc + 1;
            proof {
                let cur = mid_state(*self, ipos as int, output@);
                assert(step(prog, inp, pre) == StepOutcome::Next(cur));
                assert(run_n(prog, inp, s0, n + 1) == StepOutcome::Next(cur));
                n = n + 1;
            }
        }
        proof {
            assert(run_matches(prog, inp, s0, n, *self, output@, Ok::<(), BFIError>(())));
        }
        Ok(())
    }
}

/// The abstract state a run of this instance begins from: its tape and data
/// pointer, the cursor at the text's first position, nothing consumed from
/// the input port, and the output port as handed in.
pub open spec fn start_state(m: BFI, out: Seq<u8>) -> State {
    State { tape: m.x@, p: m.p as int, pc: 0, ipos: 0, out }
}

/// The abstract state an instance stands in mid-run, beside what the run has
/// taken from the input port and left on the output port.
pub open spec fn mid_state(m: BFI, ipos: int, out: Seq<u8>) -> State {
    State { tape: m.x@, p: m.p as int, pc: m.pc as int, ipos, out }
}

/// After `n` steps the abstract run from `s0` is at rest, and what it left is
/// exactly what the interpreter reports: success with the cursor out of the
/// text, or the first failure in the state it was found in — and either way
/// this instance's tape, pointer and cursor, and the bytes on the output port.
pub open spec fn run_matches(
    prog: Seq<char>,
    inp: Seq<u8>,
    s0: State,
    n: nat,
    m: BFI,
    out: Seq<u8>,
    r: Result<(), BFIError>,
) -> bool {
    match run_n(prog, inp, s0, n) {
        StepOutcome::Next(s) => {
            &&& r == Ok::<(), BFIError>(())
            &&& !(0 <= s.pc < prog.len())
            &&& s.tape == m.x@
            &&& s.p == m.p as int
            &&& s.pc == m.pc as int
            &&& s.out == out
        },
        StepOutcome::Fail(s, e) => {
            &&& r == Err::<(), BFIError>(e)
            &&& s.tape == m.x@
            &&& s.p == m.p as int
            &&& s.pc == m.pc as int
            &&& s.out == out
        },
    }
}

/// Relies on `str::chars`, which yields exactly the string's characters in
/// order, and on `Vec`'s documented guarantee of never allocating more than
/// `isize::MAX` bytes — a `char` takes four of them.
#[verifier::external_body]
fn chars_of(s: &str) -> (r: Vec<char>)
    ensures
        r@ == s@,
        4 * r@.len() <= isize::MAX as int,
{
    s.chars().collect()
}

} // verus!
