//! The Malbolge program loader and execution engine.
//!
//! The loader validates raw program text against the positional checksum
//! rule and extends it deterministically to the full 59049-cell address
//! space with the crazy operation.  The engine runs the
//! fetch-decode-execute cycle over that memory image: every executed
//! instruction re-encrypts its own cell through a fixed substitution
//! table before the code and data pointers advance.

use vstd::prelude::*;

use crate::value::{crz_spec, lemma_crz_range, shr_spec, Value, MAX_VALUE};

verus! {

/// Why a program text was rejected by the loader.
#[derive(Clone, Copy, PartialEq, Eq, Structural, Debug)]
pub enum LoadError {
    /// More than 59049 non-whitespace characters.
    TooLong,
    /// A character outside `'!'..='~'`, or one that fails the positional
    /// checksum rule.
    Malformed,
    /// No non-whitespace character at all.
    Empty,
}

/// The ASCII whitespace characters that the loader skips.
pub open spec fn is_space(b: u8) -> bool {
    b == 32 || b == 9 || b == 10 || b == 12 || b == 13
}

/// The program text with its ASCII whitespace removed.
pub open spec fn strip(s: Seq<u8>) -> Seq<u8>
    decreases s.len(),
{
    if s.len() == 0 {
        Seq::empty()
    } else if is_space(s.last()) {
        strip(s.drop_last())
    } else {
        strip(s.drop_last()).push(s.last())
    }
}

/// The positional checksum rule: the character `c` may stand at
/// post-filter position `i` only if it is printable and
/// `(i + c) % 94` selects one of the eight Malbolge opcodes.
pub open spec fn valid_at(c: u8, i: int) -> bool {
    33 <= c <= 126 && {
        let x = (i + c) % 94;
        x == 4 || x == 5 || x == 23 || x == 39 || x == 40 || x == 62 || x == 68 || x == 81
    }
}

/// The first `n` characters of the stripped text all pass the checksum rule.
pub open spec fn prefix_valid(f: Seq<u8>, n: int) -> bool {
    forall|i: int| 0 <= i < n ==> valid_at(#[trigger] f[i], i)
}

/// The initial value of memory cell `i` for the stripped program text `f`:
/// the program's own characters first, then cells determined by the crazy
/// operation on the two preceding cells.  For a one-character program the
/// missing second predecessor of cell 1 is taken to be zero.
pub open spec fn cell(f: Seq<u8>, i: int) -> int
    decreases i,
{
    if i < 0 {
        0
    } else if i < f.len() {
        f[i] as int
    } else if i == 0 {
        0
    } else if i == 1 {
        crz_spec(cell(f, 0), 0)
    } else {
        crz_spec(cell(f, i - 1), cell(f, i - 2))
    }
}

/// The full 59049-cell memory image determined by the stripped text `f`.
pub open spec fn image_spec(f: Seq<u8>) -> Seq<int> {
    Seq::new(59049, |i: int| cell(f, i))
}

/// The fixed 94-entry substitution table used for the per-step
/// re-encryption of the executed instruction's cell, indexed by
/// `value - 33`.
pub open spec fn encrypt_table() -> Seq<int> {
    seq![
        53int, 122int, 93int, 38int, 103int, 113int, 116int, 121int, 102int, 114int,
        36int, 40int, 119int, 101int, 52int, 123int, 87int, 80int, 41int, 72int,
        45int, 90int, 110int, 44int, 91int, 37int, 92int, 51int, 100int, 76int,
        43int, 81int, 59int, 62int, 85int, 33int, 112int, 74int, 83int, 55int,
        50int, 70int, 104int, 79int, 65int, 49int, 67int, 66int, 54int, 118int,
        94int, 61int, 73int, 95int, 48int, 47int, 56int, 124int, 106int, 115int,
        98int, 57int, 109int, 60int, 46int, 84int, 86int, 97int, 99int, 96int,
        117int, 89int, 42int, 77int, 75int, 39int, 88int, 126int, 120int, 68int,
        108int, 125int, 82int, 69int, 111int, 107int, 78int, 58int, 35int, 63int,
        71int, 34int, 105int, 64int,
    ]
}

/// The substitution applied to a printable cell value.
pub open spec fn encrypt_spec(v: int) -> int {
    encrypt_table()[v - 33]
}

/// The substitution table, as executable code.
fn encrypt(v: u16) -> (r: u16)
    requires
        33 <= v <= 126,
    ensures
        r as int == encrypt_spec(v as int),
        33 <= r <= 126,
{
    match v {
        33 => 53,
        34 => 122,
        35 => 93,
        36 => 38,
        37 => 103,
        38 => 113,
        39 => 116,
        40 => 121,
        41 => 102,
        42 => 114,
        43 => 36,
        44 => 40,
        45 => 119,
        46 => 101,
        47 => 52,
        48 => 123,
        49 => 87,
        50 => 80,
        51 => 41,
        52 => 72,
        53 => 45,
        54 => 90,
        55 => 110,
        56 => 44,
        57 => 91,
        58 => 37,
        59 => 92,
        60 => 51,
        61 => 100,
        62 => 76,
        63 => 43,
        64 => 81,
        65 => 59,
        66 => 62,
        67 => 85,
        68 => 33,
        69 => 112,
        70 => 74,
        71 => 83,
        72 => 55,
        73 => 50,
        74 => 70,
        75 => 104,
        76 => 79,
        77 => 65,
        78 => 49,
        79 => 67,
        80 => 66,
        81 => 54,
        82 => 118,
        83 => 94,
        84 => 61,
        85 => 73,
        86 => 95,
        87 => 48,
        88 => 47,
        89 => 56,
        90 => 124,
        91 => 106,
        92 => 115,
        93 => 98,
        94 => 57,
        95 => 109,
        96 => 60,
        97 => 46,
        98 => 84,
        99 => 86,
        100 => 97,
        101 => 99,
        102 => 96,
        103 => 117,
        104 => 89,
        105 => 42,
        106 => 77,
        107 => 75,
        108 => 39,
        109 => 88,
        110 => 126,
        111 => 120,
        112 => 68,
        113 => 108,
        114 => 125,
        115 => 82,
        116 => 69,
        117 => 111,
        118 => 107,
        119 => 78,
        120 => 58,
        121 => 35,
        122 => 63,
        123 => 71,
        124 => 34,
        125 => 105,
        _ => 64,
    }
}

/// Stripping a longer prefix only extends the stripped sequence.
proof fn lemma_strip_prefix(s: Seq<u8>, m: int)
    requires
        0 <= m <= s.len(),
    ensures
        strip(s.take(m)).len() <= strip(s).len(),
        forall|k: int|
            0 <= k < strip(s.take(m)).len() ==> #[trigger] strip(s)[k] == strip(s.take(m))[k],
    decreases s.len() - m,
{
    if m == s.len() {
        assert(s.take(m) =~= s);
    } else {
        lemma_strip_prefix(s, m + 1);
        let t = s.take(m + 1);
        assert(t.drop_last() =~= s.take(m));
        assert(t.last() == s[m]);
    }
}

/// The stripped text `f` is an acceptable program: between 1 and 59049
/// characters, all passing the positional checksum rule.
pub open spec fn load_ok(f: Seq<u8>) -> bool {
    1 <= f.len() <= 59049 && prefix_valid(f, f.len() as int)
}

/// The load error that the left-to-right scan of the stripped text `f`
/// reports, each if and only if its condition holds.
pub open spec fn load_err_spec(f: Seq<u8>, e: LoadError) -> bool {
    match e {
        LoadError::Empty => f.len() == 0,
        LoadError::Malformed => exists|j: int|
            0 <= j < f.len() && j < 59049 && !valid_at(#[trigger] f[j], j),
        LoadError::TooLong => f.len() > 59049 && prefix_valid(f, 59049),
    }
}

/// Validates and loads a Malbolge program: strips ASCII whitespace,
/// checks each remaining character against the positional checksum rule,
/// and extends the program deterministically to the full 59049-cell
/// memory image with the crazy operation.
///
/// Succeeds exactly on texts whose stripped form has between 1 and 59049
/// characters, all passing the checksum rule; the error names the first
/// violation the left-to-right scan meets.
pub fn load_program(source: &[u8]) -> (r: Result<Vec<Value>, LoadError>)
    ensures
        ({
            let f = strip(source@);
            match r {
                Ok(mem) => {
                    &&& load_ok(f)
                    &&& mem@.len() == 59049
                    &&& forall|i: int| 0 <= i < 59049 ==> (#[trigger] mem@[i])@ == cell(f, i)
                },
                Err(e) => load_err_spec(f, e),
            }
        }),
{
    let ghost src = source@;
    let mut mem: Vec<Value> = Vec::new();
    let mut j: usize = 0;
    while j < source.len()
        invariant
            j <= src.len(),
            source@ == src,
            mem@.len() == strip(src.take(j as int)).len(),
            mem@.len() <= 59049,
            forall|k: int|
                0 <= k < mem@.len() ==> (#[trigger] mem@[k])@ == strip(src.take(j as int))[k] as int,
            prefix_valid(strip(src.take(j as int)), mem@.len() as int),
        decreases src.len() - j,
    {
        let b = source[j];
        proof {
            assert(src.take(j + 1).drop_last() =~= src.take(j as int));
            assert(src.take(j + 1).last() == b);
        }
        if !(b == 32 || b == 9 || b == 10 || b == 12 || b == 13) {
            let ghost f1 = strip(src.take(j + 1));
            proof {
                assert(f1 =~= strip(src.take(j as int)).push(b));
            }
            if mem.len() >= 59049 {
                proof {
                    lemma_strip_prefix(src, j + 1);
                    assert(strip(src).len() >= f1.len());
                    assert forall|i: int| 0 <= i < 59049 implies valid_at(
                        #[trigger] strip(src)[i],
                        i,
                    ) by {
                        assert(strip(src)[i] == f1[i]);
                    }
                }
                return Err(LoadError::TooLong);
            }
            let i = mem.len();
            let c = b as u16;
            let sel = (i as u64 + c as u64) % 94;
            if c < 33 || c > 126 || !(sel == 4 || sel == 5 || sel == 23 || sel == 39 || sel == 40
                || sel == 62 || sel == 68 || sel == 81) {
                proof {
                    lemma_strip_prefix(src, j + 1);
                    assert(!valid_at(f1[i as int], i as int));
                    assert(strip(src)[i as int] == f1[i as int]);
                }
                return Err(LoadError::Malformed);
            }
            mem.push(Value::new(c));
        }
        j = j + 1;
    }
    proof {
        assert(src.take(src.len() as int) =~= src);
    }
    let ghost f = strip(src);
    if mem.len() == 0 {
        return Err(LoadError::Empty);
    }
    if mem.len() == 1 {
        let first = mem[0];
        mem.push(first.crz(Value::zero()));
        proof {
            assert(cell(f, 0) == f[0] as int);
            assert(mem@[1]@ == cell(f, 1));
        }
    }
    let mut i = mem.len();
    while i < 59049
        invariant
            2 <= i <= 59049,
            mem@.len() == i,
            i >= f.len(),
            forall|k: int| 0 <= k < i ==> (#[trigger] mem@[k])@ == cell(f, k),
        decreases 59049 - i,
    {
        let a = mem[i - 1];
        let b = mem[i - 2];
        mem.push(a.crz(b));
        i = i + 1;
    }
    Ok(mem)
}

/// Every initial memory cell is a ten-trit value.
pub proof fn lemma_cell_range(f: Seq<u8>, i: int)
    ensures
        0 <= cell(f, i) <= 59048,
{
    if 0 <= i < f.len() {
    } else if i == 1 {
        lemma_crz_range(cell(f, 0), 0);
    } else if i >= 2 {
        lemma_crz_range(cell(f, i - 1), cell(f, i - 2));
    }
}

/// Denormalization is deterministic: one stripped text determines one
/// memory image, so loading the same source twice yields identical images.
pub proof fn lemma_load_deterministic(src: Seq<u8>, m1: Seq<int>, m2: Seq<int>)
    requires
        m1 == image_spec(strip(src)),
        m2 == image_spec(strip(src)),
    ensures
        m1 == m2,
{
}

/// What a running engine step returns to its caller.
#[derive(Clone, Copy, PartialEq, Eq, Structural, Debug)]
pub enum StepResult {
    /// The instruction completed; nothing is observable outside.
    Continue,
    /// An output instruction completed; the byte is the low 8 bits of
    /// the accumulator.
    Output(u8),
    /// The current instruction reads a byte; the engine did not move.
    /// Feed the byte (or the end of input) to `step_input`.
    NeedInput,
    /// A halt instruction was fetched; the engine did not move.
    Halt,
    /// A runtime error: a fetched or jumped-to cell is not printable, or
    /// the re-encryption target left the printable range.  The engine
    /// did not move.
    Fault,
}

/// The mathematical state of the engine: three registers and the
/// 59049-cell memory image, all as plain integers.
#[verifier::ext_equal]
pub ghost struct VmView {
    pub acc: int,
    pub cp: int,
    pub dp: int,
    pub mem: Seq<int>,
}

/// A well-formed engine state: full-size memory, every cell and every
/// register a ten-trit value.
pub open spec fn wf_state(s: VmView) -> bool {
    &&& s.mem.len() == 59049
    &&& forall|i: int| 0 <= i < 59049 ==> 0 <= #[trigger] s.mem[i] <= 59048
    &&& 0 <= s.acc <= 59048
    &&& 0 <= s.cp <= 59048
    &&& 0 <= s.dp <= 59048
}

/// A cell value that may be fetched or re-encrypted: printable ASCII.
pub open spec fn printable(v: int) -> bool {
    33 <= v <= 126
}

/// The opcode selector of the instruction at the code pointer.
pub open spec fn selector(s: VmView) -> int {
    (s.mem[s.cp] + s.cp) % 94
}

/// The state right after the dispatched instruction acted, before the
/// mandatory re-encryption and pointer advance.
pub open spec fn dispatch(s: VmView) -> VmView {
    let x = selector(s);
    if x == 4 {
        VmView { acc: s.acc, cp: s.mem[s.dp], dp: s.dp, mem: s.mem }
    } else if x == 39 {
        let a = shr_spec(s.mem[s.dp]);
        VmView { acc: a, cp: s.cp, dp: s.dp, mem: s.mem.update(s.dp, a) }
    } else if x == 40 {
        VmView { acc: s.acc, cp: s.cp, dp: s.mem[s.dp], mem: s.mem }
    } else if x == 62 {
        let a = crz_spec(s.acc, s.mem[s.dp]);
        VmView { acc: a, cp: s.cp, dp: s.dp, mem: s.mem.update(s.dp, a) }
    } else {
        s
    }
}

/// The mandatory tail of every completed step: re-encrypt the cell at
/// the pre-jump code pointer `cp0`, then advance both pointers with
/// wraparound.
pub open spec fn advance(s: VmView, cp0: int) -> VmView {
    VmView {
        acc: s.acc,
        cp: (s.cp + 1) % 59049,
        dp: (s.dp + 1) % 59049,
        mem: s.mem.update(cp0, encrypt_spec(s.mem[cp0])),
    }
}

/// One step of the engine on a state whose instruction is not the input
/// instruction: the state after the step and what the step returns.
/// On `Halt`, `NeedInput` and `Fault` the state is unchanged.
pub open spec fn spec_step(s: VmView) -> (VmView, StepResult) {
    if !printable(s.mem[s.cp]) {
        (s, StepResult::Fault)
    } else {
        let x = selector(s);
        if x == 81 {
            (s, StepResult::Halt)
        } else if x == 23 {
            (s, StepResult::NeedInput)
        } else if x == 4 && !printable(s.mem[s.mem[s.dp]]) {
            (s, StepResult::Fault)
        } else {
            let m = dispatch(s);
            if !printable(m.mem[s.cp]) {
                (s, StepResult::Fault)
            } else if x == 5 {
                (advance(m, s.cp), StepResult::Output((s.acc % 256) as u8))
            } else {
                (advance(m, s.cp), StepResult::Continue)
            }
        }
    }
}

/// Completing an input instruction with the byte that was read, or with
/// the end-of-input sentinel 59048 when the stream is exhausted.
pub open spec fn spec_step_input(s: VmView, b: Option<u8>) -> VmView {
    let a: int = match b {
        Option::Some(x) => x as int,
        Option::None => 59048,
    };
    advance(VmView { acc: a, cp: s.cp, dp: s.dp, mem: s.mem }, s.cp)
}

/// Self-modification ordering: a completed non-input step re-encrypts
/// the cell the instruction was fetched from, with its pre-step value,
/// whenever the instruction did not itself overwrite that cell.
pub proof fn lemma_self_modification(s: VmView)
    requires
        wf_state(s),
        printable(s.mem[s.cp]),
        selector(s) != 81,
        selector(s) != 23,
        spec_step(s).1 != StepResult::Fault,
        !((selector(s) == 39 || selector(s) == 62) && s.dp == s.cp),
    ensures
        spec_step(s).0.mem[s.cp] == encrypt_spec(s.mem[s.cp]),
{
    let m = dispatch(s);
    assert(m.mem[s.cp] == s.mem[s.cp]);
}

/// Self-modification ordering for the input instruction: completing it
/// re-encrypts the cell the instruction was fetched from.
pub proof fn lemma_self_modification_input(s: VmView, b: Option<u8>)
    requires
        wf_state(s),
        printable(s.mem[s.cp]),
        selector(s) == 23,
    ensures
        spec_step_input(s, b).mem[s.cp] == encrypt_spec(s.mem[s.cp]),
{
}

/// The Malbolge execution engine: accumulator, code pointer and data
/// pointer over the loaded memory image.
pub struct MalbolgeVM {
    acc: Value,
    cp: Value,
    dp: Value,
    mem: Vec<Value>,
}

impl View for MalbolgeVM {
    type V = VmView;

    closed spec fn view(&self) -> VmView {
        VmView {
            acc: self.acc@,
            cp: self.cp@,
            dp: self.dp@,
            mem: self.mem@.map_values(|v: Value| v@),
        }
    }
}

impl MalbolgeVM {
    /// Loads `source` and, on success, hands back an engine over the
    /// denormalized memory image with all three registers at zero.
    pub fn init(source: &[u8]) -> (r: Result<MalbolgeVM, LoadError>)
        ensures
            match r {
                Ok(vm) => {
                    &&& wf_state(vm@)
                    &&& vm@.acc == 0
                    &&& vm@.cp == 0
                    &&& vm@.dp == 0
                    &&& vm@.mem == image_spec(strip(source@))
                    &&& load_ok(strip(source@))
                },
                Err(e) => load_err_spec(strip(source@), e),
            },
    {
        let mem = match load_program(source) {
            Ok(m) => m,
            Err(e) => {
                return Err(e);
            },
        };
        let vm = MalbolgeVM { acc: Value::zero(), cp: Value::zero(), dp: Value::zero(), mem };
        proof {
            let ghost f = strip(source@);
            assert(vm@.mem =~= image_spec(f));
            assert forall|i: int| 0 <= i < 59049 implies 0 <= #[trigger] vm@.mem[i] <= 59048 by {
                lemma_cell_range(f, i);
            }
        }
        Ok(vm)
    }

    /// True exactly when the next step would be an input instruction,
    /// so that the caller must read a byte and call `step_input`.
    pub fn needs_input(&self) -> (r: bool)
        requires
            wf_state(self@),
        ensures
            r == (printable(self@.mem[self@.cp]) && selector(self@) == 23),
    {
        let op = self.mem[self.cp.val() as usize].val();
        if op < 33 || op > 126 {
            return false;
        }
        (op + self.cp.val()) % 94 == 23
    }

    /// Runs one fetch-decode-execute-modify-advance cycle, except for
    /// the input instruction, which is reported as `NeedInput` and left
    /// to `step_input`.  On `Halt`, `NeedInput` and `Fault` the engine
    /// does not move.
    pub fn step(&mut self) -> (r: StepResult)
        requires
            wf_state(old(self)@),
        ensures
            wf_state(final(self)@),
            final(self)@ == spec_step(old(self)@).0,
            r == spec_step(old(self)@).1,
    {
        let ghost s = self@;
        let cp0 = self.cp.val();
        let op = self.mem[cp0 as usize].val();
        if op < 33 || op > 126 {
            return StepResult::Fault;
        }
        let sel = (op + cp0) % 94;
        if sel == 81 {
            return StepResult::Halt;
        }
        if sel == 23 {
            return StepResult::NeedInput;
        }
        let dpv = self.dp.val();
        let mut out = StepResult::Continue;
        if sel == 4 {
            let t = self.mem[dpv as usize];
            let tv = self.mem[t.val() as usize].val();
            if tv < 33 || tv > 126 {
                return StepResult::Fault;
            }
            self.cp = t;
        } else if sel == 5 {
            out = StepResult::Output((self.acc.val() % 256) as u8);
        } else if sel == 39 {
            let a = self.mem[dpv as usize].shr();
            if dpv == cp0 {
                let av = a.val();
                if av < 33 || av > 126 {
                    return StepResult::Fault;
                }
            }
            self.acc = a;
            self.mem[dpv as usize] = a;
        } else if sel == 40 {
            self.dp = self.mem[dpv as usize];
        } else if sel == 62 {
            let a = self.acc.crz(self.mem[dpv as usize]);
            if dpv == cp0 {
                let av = a.val();
                if av < 33 || av > 126 {
                    return StepResult::Fault;
                }
            }
            self.acc = a;
            self.mem[dpv as usize] = a;
        }
        proof {
            assert(self@.mem =~= dispatch(s).mem);
            assert(self@ =~= dispatch(s));
        }
        let cur = self.mem[cp0 as usize].val();
        let e = encrypt(cur);
        self.mem[cp0 as usize] = Value::new(e);
        self.cp.incr();
        self.dp.incr();
        proof {
            assert(self@.mem =~= spec_step(s).0.mem);
            assert(self@ =~= spec_step(s).0);
        }
        out
    }

    /// Completes an input instruction: the accumulator takes the byte
    /// that was read, or the sentinel 59048 at the end of input; then
    /// the instruction's cell is re-encrypted and the pointers advance.
    pub fn step_input(&mut self, byte: Option<u8>)
        requires
            wf_state(old(self)@),
            printable(old(self)@.mem[old(self)@.cp]),
            selector(old(self)@) == 23,
        ensures
            wf_state(final(self)@),
            final(self)@ == spec_step_input(old(self)@, byte),
    {
        let ghost s = self@;
        let v: u16 = match byte {
            Option::Some(b) => b as u16,
            Option::None => MAX_VALUE,
        };
        self.acc = Value::new(v);
        let cp0 = self.cp.val();
        let cur = self.mem[cp0 as usize].val();
        let e = encrypt(cur);
        self.mem[cp0 as usize] = Value::new(e);
        self.cp.incr();
        self.dp.incr();
        proof {
            assert(self@.mem =~= spec_step_input(s, byte).mem);
            assert(self@ =~= spec_step_input(s, byte));
        }
    }

    /// The accumulator.
    pub fn reg_acc(&self) -> (r: Value)
        ensures
            r@ == self@.acc,
    {
        self.acc
    }

    /// The code pointer.
    pub fn reg_cp(&self) -> (r: Value)
        ensures
            r@ == self@.cp,
    {
        self.cp
    }

    /// The data pointer.
    pub fn reg_dp(&self) -> (r: Value)
        ensures
            r@ == self@.dp,
    {
        self.dp
    }

    /// The memory cell at `addr`.
    pub fn cell_at(&self, addr: u16) -> (r: Value)
        requires
            wf_state(self@),
            addr <= 59048,
        ensures
            r@ == self@.mem[addr as int],
    {
        self.mem[addr as usize]
    }
}

/// Every entry of the substitution table is printable, so re-encryption
/// keeps the executed cell a printable ten-trit value.
pub proof fn lemma_encrypt_printable(v: int)
    requires
        printable(v),
    ensures
        printable(encrypt_spec(v)),
{
}

/// The engine's core guarantee: a step never takes a well-formed state
/// out of the ten-trit world, whatever instruction it executes.
pub proof fn lemma_step_preserves_wf(s: VmView)
    requires
        wf_state(s),
    ensures
        wf_state(spec_step(s).0),
{
    if printable(s.mem[s.cp]) {
        let x = selector(s);
        let m = dispatch(s);
        if x == 39 {
            assert(0 <= shr_spec(s.mem[s.dp]) <= 59048);
        }
        if x == 62 {
            lemma_crz_range(s.acc, s.mem[s.dp]);
        }
        if printable(m.mem[s.cp]) {
            lemma_encrypt_printable(m.mem[s.cp]);
        }
    }
}

/// Completing an input instruction preserves well-formedness as well.
pub proof fn lemma_step_input_preserves_wf(s: VmView, b: Option<u8>)
    requires
        wf_state(s),
        printable(s.mem[s.cp]),
    ensures
        wf_state(spec_step_input(s, b)),
{
    lemma_encrypt_printable(s.mem[s.cp]);
}

} // verus!
