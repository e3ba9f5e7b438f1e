//! Reading the bytecode of a chunk back, instruction by instruction,
//! and listing it in a form that people can read.

use vstd::prelude::*;
use vstd::slice::slice_subrange;
use crate::data::DataModel;
use crate::lambda::{Captured, Lambda, LambdaModel};
use crate::number::{consumed, decoded_value, encoding, terminated, try_build_number,
    lemma_consumed_after_run, lemma_consumed_bounds, lemma_round_trip};
use crate::opcode::Opcode;
use crate::text::{decimal, push_decimal, push_text};

verus! {

/// One instruction as it was read back from the bytecode: what it does, and its operand,
/// if it takes one.
#[derive(Debug, Clone, Copy, PartialEq, Eq)]
pub struct Instruction {
    pub op: Opcode,
    pub operand: Option<usize>,
}

/// The instructions that the bytecode holds from the offset `at` on.
/// There are none where a byte stands for no instruction,
/// or where an operand is cut short or too large for the machine.
pub open spec fn instructions_from(code: Seq<u8>, at: int) -> Option<Seq<Instruction>>
    decreases code.len() - at,
    via instructions_from_ends
{
    if at < 0 || at >= code.len() {
        Some(Seq::empty())
    } else {
        match Opcode::of_byte(code[at]) {
            None => None,
            Some(op) => {
                if op.takes_operand() {
                    let rest = code.skip(at + 1);
                    if terminated(rest) && decoded_value(rest) <= usize::MAX {
                        let first = Instruction { op, operand: Some(decoded_value(rest) as usize) };
                        match instructions_from(code, at + 1 + consumed(rest)) {
                            Some(more) => Some(seq![first] + more),
                            None => None,
                        }
                    } else {
                        None
                    }
                } else {
                    let first = Instruction { op, operand: None };
                    match instructions_from(code, at + 1) {
                        Some(more) => Some(seq![first] + more),
                        None => None,
                    }
                }
            },
        }
    }
}

#[via_fn]
proof fn instructions_from_ends(code: Seq<u8>, at: int) {
    lemma_consumed_bounds(code.skip(at + 1));
}

/// A number that ends within its bytes is read the same whatever follows them.
pub proof fn lemma_number_before_more(bytes: Seq<u8>, more: Seq<u8>)
    requires
        terminated(bytes),
    ensures
        terminated(bytes + more),
        consumed(bytes + more) == consumed(bytes),
        decoded_value(bytes + more) == decoded_value(bytes),
{
    let all = bytes + more;
    let run = consumed(bytes) - 1;
    lemma_consumed_bounds(bytes);
    assert forall|j: int| 0 <= j < run implies crate::number::continues(#[trigger] all[j]) by {
        assert(all[j] == bytes[j]);
    }
    lemma_consumed_after_run(all, run);
    assert(all.skip(run)[0] == bytes[run]);
    assert(all.take(consumed(bytes) as int) =~= bytes.take(consumed(bytes) as int));
}

/// What follows a piece of bytecode is read as if it stood alone.
pub proof fn lemma_instructions_after(code: Seq<u8>, more: Seq<u8>, at: int)
    requires
        0 <= at <= more.len(),
    ensures
        instructions_from(code + more, code.len() + at) == instructions_from(more, at),
    decreases more.len() - at,
{
    let all = code + more;
    if at < more.len() {
        assert(all[code.len() + at] == more[at]);
        assert(all.skip(code.len() + at + 1) =~= more.skip(at + 1));
        match Opcode::of_byte(more[at]) {
            None => {},
            Some(op) => {
                if op.takes_operand() {
                    let rest = more.skip(at + 1);
                    lemma_consumed_bounds(rest);
                    if terminated(rest) && decoded_value(rest) <= usize::MAX {
                        lemma_instructions_after(code, more, at + 1 + consumed(rest));
                    }
                } else {
                    lemma_instructions_after(code, more, at + 1);
                }
            },
        }
    }
}

/// Bytecode that can be read back can still be read back when more bytecode follows it:
/// its instructions come first, then those of what follows.
pub proof fn lemma_instructions_then(code: Seq<u8>, more: Seq<u8>, at: int)
    requires
        0 <= at <= code.len(),
        instructions_from(code, at) is Some,
    ensures
        instructions_from(code + more, at) == match instructions_from(more, 0) {
            Some(later) => Some(instructions_from(code, at)->Some_0 + later),
            None => None,
        },
    decreases code.len() - at,
{
    let all = code + more;
    if at == code.len() {
        lemma_instructions_after(code, more, 0);
        if instructions_from(more, 0) is Some {
            assert(Seq::<Instruction>::empty() + instructions_from(more, 0)->Some_0
                =~= instructions_from(more, 0)->Some_0);
        }
    } else {
        assert(all[at] == code[at]);
        let op = Opcode::of_byte(code[at])->Some_0;
        if op.takes_operand() {
            let rest = code.skip(at + 1);
            assert(all.skip(at + 1) =~= rest + more);
            lemma_number_before_more(rest, more);
            lemma_consumed_bounds(rest);
            let next = at + 1 + consumed(rest);
            lemma_instructions_then(code, more, next);
            let first = Instruction { op, operand: Some(decoded_value(rest) as usize) };
            if instructions_from(more, 0) is Some {
                assert(seq![first] + (instructions_from(code, next)->Some_0 + instructions_from(
                    more,
                    0,
                )->Some_0) =~= (seq![first] + instructions_from(code, next)->Some_0)
                    + instructions_from(more, 0)->Some_0);
            }
        } else {
            lemma_instructions_then(code, more, at + 1);
            let first = Instruction { op, operand: None };
            if instructions_from(more, 0) is Some {
                assert(seq![first] + (instructions_from(code, at + 1)->Some_0 + instructions_from(
                    more,
                    0,
                )->Some_0) =~= (seq![first] + instructions_from(code, at + 1)->Some_0)
                    + instructions_from(more, 0)->Some_0);
            }
        }
    }
}

/// An instruction that is emitted with its operand split into bytes is read back as it was
/// emitted, after the instructions that stood before it.
pub proof fn lemma_emitted_with_operand_reads_back(code: Seq<u8>, op: Opcode, operand: usize)
    requires
        instructions_from(code, 0) is Some,
        op.takes_operand(),
    ensures
        instructions_from(code.push(op.byte()) + encoding(operand as nat), 0) == Some(
            instructions_from(code, 0)->Some_0.push(Instruction { op, operand: Some(operand) }),
        ),
{
    let more = seq![op.byte()] + encoding(operand as nat);
    op.lemma_byte_round_trip(op.byte());
    lemma_round_trip(operand as nat);
    assert(more.skip(1) =~= encoding(operand as nat));
    assert(instructions_from(more, more.len() as int) == Some(Seq::<Instruction>::empty()));
    let first = Instruction { op, operand: Some(operand) };
    assert(instructions_from(more, 0) == Some(seq![first] + Seq::<Instruction>::empty()));
    lemma_instructions_then(code, more, 0);
    assert(code + more =~= code.push(op.byte()) + encoding(operand as nat));
    assert(instructions_from(code, 0)->Some_0 + (seq![first] + Seq::<Instruction>::empty())
        =~= instructions_from(code, 0)->Some_0.push(first));
}

/// An instruction without operand that is emitted is read back as it was emitted,
/// after the instructions that stood before it.
pub proof fn lemma_emitted_reads_back(code: Seq<u8>, op: Opcode)
    requires
        instructions_from(code, 0) is Some,
        !op.takes_operand(),
    ensures
        instructions_from(code.push(op.byte()), 0) == Some(
            instructions_from(code, 0)->Some_0.push(Instruction { op, operand: None }),
        ),
{
    let more = seq![op.byte()];
    op.lemma_byte_round_trip(op.byte());
    assert(instructions_from(more, 1) == Some(Seq::<Instruction>::empty()));
    let first = Instruction { op, operand: None };
    assert(instructions_from(more, 0) == Some(seq![first] + Seq::<Instruction>::empty()));
    lemma_instructions_then(code, more, 0);
    assert(code + more =~= code.push(op.byte()));
    assert(instructions_from(code, 0)->Some_0 + (seq![first] + Seq::<Instruction>::empty())
        =~= instructions_from(code, 0)->Some_0.push(first));
}

impl Opcode {
    /// The name that an instruction goes by in a listing.
    pub open spec fn mnemonic(self) -> Seq<char> {
        match self {
            Opcode::Con => "Load Con"@,
            Opcode::NotInit => "NotInit "@,
            Opcode::Del => "Delete  "@,
            Opcode::Capture => "Capture "@,
            Opcode::Save => "Save    "@,
            Opcode::SaveCap => "Save Cap"@,
            Opcode::Load => "Load    "@,
            Opcode::LoadCap => "Load Cap"@,
            Opcode::Call => "Call    "@,
            Opcode::Return => "Return  "@,
            Opcode::Closure => "Closure "@,
            Opcode::Print => "Print    "@,
            Opcode::Label => "Label    "@,
            Opcode::UnLabel => "UnLabel  "@,
            Opcode::UnData => "UnData   "@,
            Opcode::Tuple => "Tuple   "@,
            Opcode::UnTuple => "UnTuple "@,
            Opcode::Copy => "Copy     "@,
            Opcode::FFICall => "FFICall "@,
        }
    }

    /// What a listing says of an instruction, or of its operand.
    pub open spec fn note(self) -> Seq<char> {
        match self {
            Opcode::Con => "Indexed constant"@,
            Opcode::NotInit => "Declare variable"@,
            Opcode::Capture => "Indexed local moved to heap"@,
            Opcode::Save => "Indexed local"@,
            Opcode::SaveCap => "Indexed upvalue on heap"@,
            Opcode::Load => "Indexed local"@,
            Opcode::LoadCap => "Indexed upvalue on heap"@,
            Opcode::Call => "Run top function using next stack value"@,
            Opcode::Return => "Locals on stack deleted"@,
            Opcode::Closure => "Index of lambda to be wrapped"@,
            Opcode::Tuple => "Values tupled together"@,
            Opcode::UnTuple => "Item accessed"@,
            Opcode::FFICall => "Indexed FFI function called"@,
            _ => "--"@,
        }
    }

    /// The name that the instruction goes by in a listing.
    pub fn name(self) -> (name: &'static str)
        ensures
            name@ == self.mnemonic(),
    {
        match self {
            Opcode::Con => "Load Con",
            Opcode::NotInit => "NotInit ",
            Opcode::Del => "Delete  ",
            Opcode::Capture => "Capture ",
            Opcode::Save => "Save    ",
            Opcode::SaveCap => "Save Cap",
            Opcode::Load => "Load    ",
            Opcode::LoadCap => "Load Cap",
            Opcode::Call => "Call    ",
            Opcode::Return => "Return  ",
            Opcode::Closure => "Closure ",
            Opcode::Print => "Print    ",
            Opcode::Label => "Label    ",
            Opcode::UnLabel => "UnLabel  ",
            Opcode::UnData => "UnData   ",
            Opcode::Tuple => "Tuple   ",
            Opcode::UnTuple => "UnTuple ",
            Opcode::Copy => "Copy     ",
            Opcode::FFICall => "FFICall ",
        }
    }

    /// What a listing says of the instruction, or of its operand.
    pub fn remark(self) -> (remark: &'static str)
        ensures
            remark@ == self.note(),
    {
        match self {
            Opcode::Con => "Indexed constant",
            Opcode::NotInit => "Declare variable",
            Opcode::Capture => "Indexed local moved to heap",
            Opcode::Save => "Indexed local",
            Opcode::SaveCap => "Indexed upvalue on heap",
            Opcode::Load => "Indexed local",
            Opcode::LoadCap => "Indexed upvalue on heap",
            Opcode::Call => "Run top function using next stack value",
            Opcode::Return => "Locals on stack deleted",
            Opcode::Closure => "Index of lambda to be wrapped",
            Opcode::Tuple => "Values tupled together",
            Opcode::UnTuple => "Item accessed",
            Opcode::FFICall => "Indexed FFI function called",
            _ => "--",
        }
    }
}

impl Captured {
    /// The printed form of a capture.
    pub open spec fn printed(self) -> Seq<char> {
        match self {
            Captured::Local(index) => "Local("@ + decimal(index as nat) + ")"@,
            Captured::Nonlocal(index) => "Nonlocal("@ + decimal(index as nat) + ")"@,
        }
    }

    /// Appends the printed form of the capture to `text`.
    pub fn push_printed(&self, text: &mut String)
        ensures
            final(text)@ == old(text)@ + self.printed(),
    {
        match self {
            Captured::Local(index) => {
                push_text(text, "Local(");
                push_decimal(text, *index as u128);
            },
            Captured::Nonlocal(index) => {
                push_text(text, "Nonlocal(");
                push_decimal(text, *index as u128);
            },
        }
        push_text(text, ")");
        assert(text@ =~= old(text)@ + self.printed());
    }
}

impl Instruction {
    /// Whether the instruction can be listed beside `constants`:
    /// one that loads a constant has to refer to one that is there.
    pub open spec fn refers_within(self, constants: Seq<DataModel>) -> bool {
        self.op == Opcode::Con ==> self.operand is Some && self.operand.unwrap() < constants.len()
    }

    /// The line that lists the instruction: its name, its operand where it has one,
    /// and a remark; for one that loads a constant, the constant.
    pub open spec fn line(self, constants: Seq<DataModel>) -> Seq<char> {
        self.op.mnemonic() + "\t"@ + (match self.operand {
            Some(operand) => decimal(operand as nat),
            None => Seq::empty(),
        }) + "\t"@ + (if self.op == Opcode::Con {
            constants[self.operand.unwrap() as int].printed()
        } else {
            self.op.note()
        }) + "\n"@
    }
}

/// The lines that list constants, one each.
pub open spec fn constant_lines(constants: Seq<DataModel>) -> Seq<char>
    decreases constants.len(),
{
    if constants.len() == 0 {
        Seq::empty()
    } else {
        constant_lines(constants.drop_last()) + constants.last().printed() + "\n"@
    }
}

/// The lines that list captures, one each.
pub open spec fn capture_lines(captures: Seq<Captured>) -> Seq<char>
    decreases captures.len(),
{
    if captures.len() == 0 {
        Seq::empty()
    } else {
        capture_lines(captures.drop_last()) + captures.last().printed() + "\n"@
    }
}

/// The lines that list instructions, one each.
pub open spec fn instruction_lines(
    instructions: Seq<Instruction>,
    constants: Seq<DataModel>,
) -> Seq<char>
    decreases instructions.len(),
{
    if instructions.len() == 0 {
        Seq::empty()
    } else {
        instruction_lines(instructions.drop_last(), constants) + instructions.last().line(
            constants,
        )
    }
}

impl LambdaModel {
    /// The instructions that the chunk's bytecode holds, where it can be read back.
    pub open spec fn instructions(self) -> Option<Seq<Instruction>> {
        instructions_from(self.code, 0)
    }

    /// Whether the chunk can be listed: its bytecode can be read back,
    /// and each instruction that loads a constant refers to one that is there.
    pub open spec fn listable(self) -> bool {
        &&& self.instructions() is Some
        &&& forall|i: int|
            0 <= i < self.instructions().unwrap().len()
                ==> (#[trigger] self.instructions().unwrap()[i]).refers_within(self.constants)
    }

    /// The part of a listing that shows what a chunk holds beside its bytecode.
    pub open spec fn listing_head(self) -> Seq<char> {
        "-- Dumping Constants:\n"@ + constant_lines(self.constants) + "-- Dumping Captures:\n"@
            + capture_lines(self.captures) + "-- Dumping Variables: "@ + decimal(self.decls)
            + "\n"@
    }

    /// The listing of a chunk: its constants, its captures, the number of variables
    /// that it declares, and its bytecode, one instruction to a line.
    pub open spec fn listing(self) -> Seq<char> {
        self.listing_head() + "-- Dumping Bytecode:\n"@ + "Inst.   \tArgs\tValue?\n"@
            + instruction_lines(self.instructions().unwrap(), self.constants)
    }
}

impl Lambda {
    /// Reads the bytecode back, instruction by instruction.
    /// `None` where a byte stands for no instruction,
    /// or where an operand is cut short or too large for the machine.
    pub fn instructions(&self) -> (found: Option<Vec<Instruction>>)
        ensures
            found is Some <==> self@.instructions() is Some,
            found is Some ==> found.unwrap()@ == self@.instructions().unwrap(),
    {
        let code = self.code.as_slice();
        let mut found: Vec<Instruction> = Vec::new();
        let mut at: usize = 0;
        assert(Seq::<Instruction>::empty() + instructions_from(code@, 0).unwrap()
            =~= instructions_from(code@, 0).unwrap());
        while at < code.len()
            invariant
                at <= code.len(),
                code@ == self@.code,
                instructions_from(code@, 0) == match instructions_from(code@, at as int) {
                    Some(more) => Some(found@ + more),
                    None => None,
                },
            decreases code.len() - at,
        {
            let ghost before = found@;
            let op = match Opcode::from_byte(code[at]) {
                Some(op) => op,
                None => {
                    return None;
                },
            };
            if op.has_operand() {
                let rest = slice_subrange(code, at + 1, code.len());
                assert(rest@ =~= code@.skip(at + 1));
                proof {
                    lemma_consumed_bounds(rest@);
                }
                match try_build_number(rest) {
                    Some((operand, taken)) => {
                        let first = Instruction { op, operand: Some(operand) };
                        found.push(first);
                        at = at + 1 + taken;
                        assert forall|more: Seq<Instruction>|
                            before + (seq![first] + more) == #[trigger] (found@ + more) by {
                            assert(before + (seq![first] + more) =~= found@ + more);
                        }
                    },
                    None => {
                        return None;
                    },
                }
            } else {
                let first = Instruction { op, operand: None };
                found.push(first);
                at = at + 1;
                assert forall|more: Seq<Instruction>|
                    before + (seq![first] + more) == #[trigger] (found@ + more) by {
                    assert(before + (seq![first] + more) =~= found@ + more);
                }
            }
        }
        assert(found@ + Seq::<Instruction>::empty() =~= found@);
        Some(found)
    }

    /// Whether the chunk can be listed.
    pub fn is_listable(&self) -> (listable: bool)
        ensures
            listable == self@.listable(),
    {
        match self.instructions() {
            None => false,
            Some(found) => {
                let mut i: usize = 0;
                while i < found.len()
                    invariant
                        i <= found.len(),
                        found@ == self@.instructions().unwrap(),
                        self@.instructions() is Some,
                        forall|j: int| 0 <= j < i ==> (#[trigger] found@[j]).refers_within(
                            self@.constants,
                        ),
                    decreases found.len() - i,
                {
                    let instruction = found[i];
                    if instruction.op == Opcode::Con {
                        let within = match instruction.operand {
                            Some(operand) => operand < self.constants.len(),
                            None => false,
                        };
                        if !within {
                            assert(!found@[i as int].refers_within(self@.constants));
                            return false;
                        }
                    }
                    i = i + 1;
                }
                true
            },
        }
    }

    /// Lists what the chunk holds: its constants, its captures, the number of variables
    /// that it declares, and its bytecode, one instruction to a line.
    pub fn listing(&self) -> (text: String)
        requires
            self@.listable(),
        ensures
            text@ == self@.listing(),
    {
        let mut text = String::new();
        self.push_listing_head(&mut text);
        push_text(&mut text, "-- Dumping Bytecode:\n");
        push_text(&mut text, "Inst.   \tArgs\tValue?\n");
        let ghost headed = text@;
        let found = match self.instructions() {
            Some(found) => found,
            None => Vec::new(),
        };
        let mut i: usize = 0;
        assert(found@.take(0) =~= Seq::empty());
        while i < found.len()
            invariant
                i <= found.len(),
                self@.listable(),
                found@ == self@.instructions().unwrap(),
                text@ == headed + instruction_lines(found@.take(i as int), self@.constants),
            decreases found.len() - i,
        {
            assert(found@.take(i + 1).drop_last() =~= found@.take(i as int));
            assert(found@[i as int].refers_within(self@.constants));
            self.push_line(&mut text, found[i]);
            i = i + 1;
            assert(text@ =~= headed + instruction_lines(found@.take(i as int), self@.constants));
        }
        assert(found@.take(i as int) =~= found@);
        assert(text@ =~= self@.listing());
        text
    }

    /// Lists the chunk where it can be listed.
    pub fn try_listing(&self) -> (text: Option<String>)
        ensures
            text is Some <==> self@.listable(),
            text is Some ==> text.unwrap()@ == self@.listing(),
    {
        if self.is_listable() {
            Some(self.listing())
        } else {
            None
        }
    }

    fn push_line(&self, text: &mut String, instruction: Instruction)
        requires
            instruction.refers_within(self@.constants),
        ensures
            final(text)@ == old(text)@ + instruction.line(self@.constants),
    {
        push_text(text, instruction.op.name());
        push_text(text, "\t");
        match instruction.operand {
            Some(operand) => push_decimal(text, operand as u128),
            None => {
                assert(text@ + Seq::<char>::empty() =~= text@);
            },
        }
        push_text(text, "\t");
        match (instruction.op, instruction.operand) {
            (Opcode::Con, Some(operand)) => {
                self.constants[operand].push_printed(text);
            },
            _ => push_text(text, instruction.op.remark()),
        }
        push_text(text, "\n");
        assert(text@ =~= old(text)@ + instruction.line(self@.constants));
    }

    fn push_listing_head(&self, text: &mut String)
        ensures
            final(text)@ == old(text)@ + self@.listing_head(),
    {
        push_text(text, "-- Dumping Constants:\n");
        let ghost titled = text@;
        let mut i: usize = 0;
        assert(self@.constants.take(0) =~= Seq::empty());
        while i < self.constants.len()
            invariant
                i <= self.constants.len(),
                text@ == titled + constant_lines(self@.constants.take(i as int)),
            decreases self.constants.len() - i,
        {
            assert(self@.constants.take(i + 1).drop_last() =~= self@.constants.take(i as int));
            self.constants[i].push_printed(text);
            push_text(text, "\n");
            i = i + 1;
            assert(text@ =~= titled + constant_lines(self@.constants.take(i as int)));
        }
        assert(self@.constants.take(i as int) =~= self@.constants);
        push_text(text, "-- Dumping Captures:\n");
        let ghost retitled = text@;
        let mut i: usize = 0;
        assert(self@.captures.take(0) =~= Seq::empty());
        while i < self.captures.len()
            invariant
                i <= self.captures.len(),
                text@ == retitled + capture_lines(self@.captures.take(i as int)),
            decreases self.captures.len() - i,
        {
            assert(self@.captures.take(i + 1).drop_last() =~= self@.captures.take(i as int));
            self.captures[i].push_printed(text);
            push_text(text, "\n");
            i = i + 1;
            assert(text@ =~= retitled + capture_lines(self@.captures.take(i as int)));
        }
        assert(self@.captures.take(i as int) =~= self@.captures);
        push_text(text, "-- Dumping Variables: ");
        push_decimal(text, self.decls as u128);
        push_text(text, "\n");
        assert(text@ =~= old(text)@ + self@.listing_head());
    }
}

} // verus!
