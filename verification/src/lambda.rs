//! Chunks of bytecode.

use vstd::prelude::*;
use crate::data::{Data, DataModel, data_models};
use crate::opcode::Opcode;
use crate::span::{Span, SpanModel};

verus! {

/// Where a closure finds a variable that it captures.
#[derive(Debug, Clone, Copy, PartialEq, Eq, Structural)]
pub enum Captured {
    /// The slot on the stack of the enclosing frame.
    Local(usize),
    /// The index among the enclosing function's own captures.
    Nonlocal(usize),
}

/// A handle on a function of the host, by which the bridge to the host finds it.
#[derive(Debug, Clone, Copy, PartialEq, Eq, Structural)]
pub struct FFIFunction {
    pub handle: usize,
}

/// A single chunk of bytecode: think a function.
#[derive(Debug, PartialEq, Eq)]
pub struct Lambda {
    /// Number of variables declared in this scope.
    pub decls: usize,
    /// Each byte is an instruction or part of an operand.
    pub code: Vec<u8>,
    /// Where in the bytecode the code of each span of source begins.
    pub spans: Vec<(usize, Span)>,
    /// The constants that instructions refer to by index.
    pub constants: Vec<Data>,
    /// Where the variables that this chunk captures are found.
    pub captures: Vec<Captured>,
    /// The functions of the host that this chunk can call.
    pub ffi: Vec<FFIFunction>,
}

/// What a `Lambda` holds.
pub ghost struct LambdaModel {
    pub decls: nat,
    pub code: Seq<u8>,
    pub spans: Seq<(nat, SpanModel)>,
    pub constants: Seq<DataModel>,
    pub captures: Seq<Captured>,
    pub ffi: Seq<FFIFunction>,
}

/// What the record of one span holds.
pub open spec fn span_entry(entry: (usize, Span)) -> (nat, SpanModel) {
    (entry.0 as nat, entry.1@)
}

/// What a chunk holds.
pub open spec fn lambda_model(lambda: Lambda) -> LambdaModel
    decreases lambda,
{
    LambdaModel {
        decls: lambda.decls as nat,
        code: lambda.code@,
        spans: lambda.spans@.map_values(|entry: (usize, Span)| span_entry(entry)),
        constants: data_models(lambda.constants@),
        captures: lambda.captures@,
        ffi: lambda.ffi@,
    }
}

impl Clone for Lambda {
    fn clone(&self) -> (copy: Lambda)
        ensures
            copy@ == self@,
    {
        self.duplicate()
    }
}

/// A copy of a row of plain values.
pub fn copy_all<T: Copy>(items: &Vec<T>) -> (copies: Vec<T>)
    ensures
        copies@ == items@,
{
    let mut copies: Vec<T> = Vec::new();
    let mut i: usize = 0;
    while i < items.len()
        invariant
            i <= items.len(),
            copies@ == items@.take(i as int),
        decreases items.len() - i,
    {
        copies.push(items[i]);
        i = i + 1;
        assert(copies@ =~= items@.take(i as int));
    }
    assert(items@.take(i as int) =~= items@);
    copies
}

impl View for Lambda {
    type V = LambdaModel;

    open spec fn view(&self) -> LambdaModel {
        lambda_model(*self)
    }
}

/// No value of the row occurs in it twice.
pub open spec fn distinct(constants: Seq<DataModel>) -> bool {
    forall|i: int, j: int| 0 <= i < j < constants.len() ==> constants[i] != constants[j]
}

/// Where a value stands among constants: the index of the first constant that is equal
/// to it, or the number of constants where none is.
pub open spec fn position(constants: Seq<DataModel>, data: DataModel) -> nat
    decreases constants.len(),
{
    if constants.len() == 0 || constants[0] == data {
        0
    } else {
        1 + position(constants.drop_first(), data)
    }
}

/// The constants after a value was looked up among them:
/// the value stands at their end where it was not among them.
pub open spec fn with_constant(constants: Seq<DataModel>, data: DataModel) -> Seq<DataModel> {
    if position(constants, data) < constants.len() {
        constants
    } else {
        constants.push(data)
    }
}

/// The constants after each of a row of values was looked up among them in turn.
pub open spec fn with_constants(constants: Seq<DataModel>, values: Seq<DataModel>) -> Seq<
    DataModel,
>
    decreases values.len(),
{
    if values.len() == 0 {
        constants
    } else {
        with_constant(with_constants(constants, values.drop_last()), values.last())
    }
}

/// A value stands where the first constant equal to it stands,
/// after a run of constants that differ from it.
pub proof fn lemma_position(constants: Seq<DataModel>, data: DataModel, at: int)
    requires
        0 <= at <= constants.len(),
        forall|j: int| 0 <= j < at ==> constants[j] != data,
        at < constants.len() ==> constants[at] == data,
    ensures
        position(constants, data) == at,
    decreases at,
{
    if at > 0 {
        let rest = constants.drop_first();
        assert forall|j: int| 0 <= j < at - 1 implies rest[j] != data by {
            assert(rest[j] == constants[j + 1]);
        }
        lemma_position(rest, data, at - 1);
    }
}

/// Where a value stands among constants, no constant before it is equal to it,
/// and the constant there is, where there is one.
pub proof fn lemma_position_bounds(constants: Seq<DataModel>, data: DataModel)
    ensures
        position(constants, data) <= constants.len(),
        forall|j: int| 0 <= j < position(constants, data) ==> constants[j] != data,
        position(constants, data) < constants.len() ==> constants[position(constants, data) as int]
            == data,
    decreases constants.len(),
{
    if !(constants.len() == 0 || constants[0] == data) {
        let rest = constants.drop_first();
        lemma_position_bounds(rest, data);
        assert forall|j: int| 0 <= j < position(constants, data) implies constants[j] != data by {
            if j > 0 {
                assert(constants[j] == rest[j - 1]);
            }
        }
    }
}

/// Looking a value up among constants that are all different leaves them all different,
/// moves none of them, and the value stands where it was found.
pub proof fn lemma_with_constant(constants: Seq<DataModel>, data: DataModel)
    requires
        distinct(constants),
    ensures
        distinct(with_constant(constants, data)),
        constants.len() <= with_constant(constants, data).len(),
        with_constant(constants, data).take(constants.len() as int) == constants,
        position(constants, data) < with_constant(constants, data).len(),
        with_constant(constants, data)[position(constants, data) as int] == data,
{
    lemma_position_bounds(constants, data);
    assert(with_constant(constants, data).take(constants.len() as int) =~= constants);
}

/// Constants are never added twice, and an index stays good:
/// after any run of lookups, starting from constants that are all different,
/// the constants are all different, those that were there stand where they stood,
/// and each value that was looked up stands at the index that its lookup gave.
pub proof fn lemma_with_constants(constants: Seq<DataModel>, values: Seq<DataModel>)
    requires
        distinct(constants),
    ensures
        distinct(with_constants(constants, values)),
        constants.len() <= with_constants(constants, values).len(),
        with_constants(constants, values).take(constants.len() as int) == constants,
        forall|k: int|
            0 <= k < values.len() ==> {
                let found = position(with_constants(constants, values.take(k)), #[trigger] values[k]);
                found < with_constants(constants, values).len() && with_constants(
                    constants,
                    values,
                )[found as int] == values[k]
            },
    decreases values.len(),
{
    if values.len() == 0 {
        assert(constants.take(constants.len() as int) =~= constants);
    } else {
        let shorter = values.drop_last();
        let before = with_constants(constants, shorter);
        let after = with_constants(constants, values);
        lemma_with_constants(constants, shorter);
        lemma_with_constant(before, values.last());
        assert(after.take(constants.len() as int) =~= constants) by {
            assert(after.take(before.len() as int) == before);
            assert(before.take(constants.len() as int) == constants);
            assert forall|i: int| 0 <= i < constants.len() implies after[i] == constants[i] by {
                assert(after[i] == after.take(before.len() as int)[i]);
                assert(before[i] == before.take(constants.len() as int)[i]);
            }
        }
        assert forall|k: int| 0 <= k < values.len() implies {
            let found = position(with_constants(constants, values.take(k)), #[trigger] values[k]);
            found < after.len() && after[found as int] == values[k]
        } by {
            if k < values.len() - 1 {
                assert(values.take(k) =~= shorter.take(k));
                assert(values[k] == shorter[k]);
                let found = position(with_constants(constants, shorter.take(k)), shorter[k]);
                assert(found < before.len() && before[found as int] == shorter[k]);
                assert(after[found as int] == after.take(before.len() as int)[found as int]);
            } else {
                assert(values.take(k) =~= shorter);
            }
        }
    }
}

impl LambdaModel {
    /// The chunk that holds nothing.
    pub open spec fn empty() -> LambdaModel {
        LambdaModel {
            decls: 0,
            code: Seq::empty(),
            spans: Seq::empty(),
            constants: Seq::empty(),
            captures: Seq::empty(),
            ffi: Seq::empty(),
        }
    }

    /// No constant occurs twice.
    pub open spec fn constants_distinct(self) -> bool {
        distinct(self.constants)
    }

    /// The recorded offsets never decrease, and none lies past the end of the code.
    pub open spec fn spans_ordered(self) -> bool {
        &&& forall|i: int, j: int|
            0 <= i <= j < self.spans.len() ==> self.spans[i].0 <= self.spans[j].0
        &&& forall|i: int| 0 <= i < self.spans.len() ==> (#[trigger] self.spans[i]).0 <= self.code.len()
    }

    /// Where the record stands that a lookup of `index` finds: the last of the records,
    /// wherever it stands among them, whose offset is not past `index`.
    /// Where every offset is past `index`, this is minus one.
    pub open spec fn found_at(spans: Seq<(nat, SpanModel)>, index: nat) -> int
        decreases spans.len(),
    {
        if spans.len() == 0 {
            -1
        } else if spans.last().0 <= index {
            spans.len() - 1
        } else {
            LambdaModel::found_at(spans.drop_last(), index)
        }
    }

    /// The span that a lookup of `index` finds: that of the record that was made last
    /// among those whose offset is not past `index`, and the empty span where there is none.
    pub open spec fn span_at(self, index: nat) -> SpanModel {
        let at = LambdaModel::found_at(self.spans, index);
        if at < 0 {
            SpanModel::empty()
        } else {
            self.spans[at].1
        }
    }

    /// The record that a lookup finds has an offset that is not past `index`,
    /// and every record after it has one that is.
    pub proof fn lemma_found_at(spans: Seq<(nat, SpanModel)>, index: nat)
        ensures
            -1 <= LambdaModel::found_at(spans, index) < spans.len(),
            LambdaModel::found_at(spans, index) >= 0 ==> spans[LambdaModel::found_at(
                spans,
                index,
            )].0 <= index,
            forall|j: int|
                LambdaModel::found_at(spans, index) < j < spans.len() ==> (#[trigger] spans[j]).0
                    > index,
        decreases spans.len(),
    {
        if spans.len() > 0 && spans.last().0 > index {
            let shorter = spans.drop_last();
            LambdaModel::lemma_found_at(shorter, index);
            assert forall|j: int|
                LambdaModel::found_at(spans, index) < j < spans.len() implies (
            #[trigger] spans[j]).0 > index by {
                if j < spans.len() - 1 {
                    assert(spans[j] == shorter[j]);
                }
            }
            if LambdaModel::found_at(spans, index) >= 0 {
                assert(spans[LambdaModel::found_at(spans, index)] == shorter[LambdaModel::found_at(
                    shorter,
                    index,
                )]);
            }
        }
    }

    /// Where the offsets are in order, a lookup finds the span of the record with the greatest
    /// offset that is not past `index`, and of the last of them where several have that offset:
    /// the records up to the one that is found are just those whose offset is not past `index`.
    pub proof fn lemma_span_at_is_nearest(self, index: nat)
        requires
            self.spans_ordered(),
        ensures
            -1 <= LambdaModel::found_at(self.spans, index) < self.spans.len(),
            forall|j: int|
                0 <= j < self.spans.len() ==> ((#[trigger] self.spans[j]).0 <= index <==> j
                    <= LambdaModel::found_at(self.spans, index)),
            LambdaModel::found_at(self.spans, index) < 0 ==> self.span_at(index)
                == SpanModel::empty(),
            LambdaModel::found_at(self.spans, index) >= 0 ==> {
                let last = self.spans[LambdaModel::found_at(self.spans, index)];
                &&& self.span_at(index) == last.1
                &&& last.0 <= index
                &&& forall|j: int|
                    0 <= j < self.spans.len() && (#[trigger] self.spans[j]).0 <= index
                        ==> self.spans[j].0 <= last.0
            },
    {
        LambdaModel::lemma_found_at(self.spans, index);
        let at = LambdaModel::found_at(self.spans, index);
        assert forall|j: int| 0 <= j < self.spans.len() implies ((#[trigger] self.spans[j]).0
            <= index <==> j <= at) by {
            if j <= at {
                assert(self.spans[j].0 <= self.spans[at].0);
            }
        }
        if at >= 0 {
            assert forall|j: int|
                0 <= j < self.spans.len() && (#[trigger] self.spans[j]).0 <= index
                implies self.spans[j].0 <= self.spans[at].0 by {
                assert(j <= at);
            }
        }
    }
}

impl Lambda {
    /// Creates a new empty chunk to be filled.
    pub fn empty() -> (lambda: Lambda)
        ensures
            lambda@ == LambdaModel::empty(),
    {
        let lambda = Lambda {
            decls: 0,
            code: Vec::new(),
            spans: Vec::new(),
            constants: Vec::new(),
            captures: Vec::new(),
            ffi: Vec::new(),
        };
        assert(lambda@.spans =~= Seq::empty());
        assert(lambda@.constants =~= Seq::empty());
        lambda
    }

    /// Emits an instruction as a byte.
    pub fn emit(&mut self, op: Opcode)
        ensures
            final(self)@ == (LambdaModel { code: old(self)@.code.push(op.byte()), ..old(self)@ }),
            old(self)@.spans_ordered() ==> final(self)@.spans_ordered(),
    {
        self.code.push(op.to_byte());
        assert(self@.spans == old(self)@.spans);
    }

    /// Emits a series of bytes, and leaves `bytes` empty.
    pub fn emit_bytes(&mut self, bytes: &mut Vec<u8>)
        ensures
            final(self)@ == (LambdaModel { code: old(self)@.code + old(bytes)@, ..old(self)@ }),
            final(bytes)@ == Seq::<u8>::empty(),
            old(self)@.spans_ordered() ==> final(self)@.spans_ordered(),
    {
        self.code.append(bytes);
        assert(self@.spans == old(self)@.spans);
    }

    /// Records that the code of `span` begins where the next instruction will stand.
    /// To be called before that instruction is emitted.
    pub fn emit_span(&mut self, span: &Span)
        ensures
            final(self)@ == (LambdaModel {
                spans: old(self)@.spans.push((old(self)@.code.len(), span@)),
                ..old(self)@
            }),
            old(self)@.spans_ordered() ==> final(self)@.spans_ordered(),
    {
        let entry = (self.code.len(), span.clone());
        self.spans.push(entry);
        assert(self@.spans =~= old(self)@.spans.push((old(self)@.code.len(), span@)));
    }

    /// Removes the last emitted byte, if there is one.
    /// The recorded spans stay as they are.
    pub fn demit(&mut self)
        ensures
            final(self)@ == (LambdaModel {
                code: if old(self)@.code.len() > 0 {
                    old(self)@.code.drop_last()
                } else {
                    old(self)@.code
                },
                ..old(self)@
            }),
    {
        self.code.pop();
    }

    /// Finds `data` among the constants, or adds it at their end where it is not there yet,
    /// and returns its index.
    /// Constants are only ever added, so an index stays good.
    pub fn index_data(&mut self, data: Data) -> (index: usize)
        ensures
            index == position(old(self)@.constants, data@),
            final(self)@ == (LambdaModel {
                constants: with_constant(old(self)@.constants, data@),
                ..old(self)@
            }),
            index < final(self)@.constants.len(),
            final(self)@.constants[index as int] == data@,
            old(self)@.constants_distinct() ==> final(self)@.constants_distinct(),
    {
        proof {
            lemma_position_bounds(self@.constants, data@);
        }
        let mut i: usize = 0;
        while i < self.constants.len()
            invariant
                i <= self.constants.len(),
                *self == *old(self),
                forall|j: int| 0 <= j < i ==> self@.constants[j] != data@,
            decreases self.constants.len() - i,
        {
            if self.constants[i].same(&data) {
                proof {
                    lemma_position(self@.constants, data@, i as int);
                }
                return i;
            }
            i = i + 1;
        }
        proof {
            lemma_position(self@.constants, data@, i as int);
        }
        self.constants.push(data);
        assert(self@.constants =~= old(self)@.constants.push(data@));
        i
    }

    /// Looks up the span of the record that was made last among those whose offset is at
    /// or before the offset of an instruction. Every record is looked at:
    /// one that was left behind past the end of the code does not hide a later one.
    pub fn index_span(&self, index: usize) -> (span: Span)
        ensures
            span@ == self@.span_at(index as nat),
    {
        let mut best = Span::empty();
        let mut i: usize = 0;
        assert(self@.spans.take(0) =~= Seq::empty());
        while i < self.spans.len()
            invariant
                i <= self.spans.len(),
                self@.spans.len() == self.spans.len(),
                LambdaModel::found_at(self@.spans.take(i as int), index as nat) < i,
                best@ == if LambdaModel::found_at(self@.spans.take(i as int), index as nat) < 0 {
                    SpanModel::empty()
                } else {
                    self@.spans[LambdaModel::found_at(self@.spans.take(i as int), index as nat)].1
                },
            decreases self.spans.len() - i,
        {
            assert(self@.spans.take(i + 1).drop_last() =~= self@.spans.take(i as int));
            assert(self@.spans.take(i + 1).last() == self@.spans[i as int]);
            if self.spans[i].0 <= index {
                best = self.spans[i].1.clone();
            }
            i = i + 1;
        }
        assert(self@.spans.take(i as int) =~= self@.spans);
        best
    }

    /// Adds a function of the host to those that this chunk can call,
    /// without checking for duplicates, and returns its index.
    pub fn add_ffi(&mut self, function: FFIFunction) -> (index: usize)
        ensures
            index == old(self)@.ffi.len(),
            final(self)@ == (LambdaModel { ffi: old(self)@.ffi.push(function), ..old(self)@ }),
    {
        self.ffi.push(function);
        self.ffi.len() - 1
    }

    /// A copy of the chunk.
    pub fn duplicate(&self) -> (copy: Lambda)
        ensures
            copy@ == self@,
        decreases self,
    {
        let mut spans: Vec<(usize, Span)> = Vec::new();
        let mut i: usize = 0;
        while i < self.spans.len()
            invariant
                i <= self.spans.len(),
                spans.len() == i,
                forall|j: int| 0 <= j < i ==> span_entry(spans@[j]) == span_entry(self.spans@[j]),
            decreases self.spans.len() - i,
        {
            spans.push((self.spans[i].0, self.spans[i].1.clone()));
            i = i + 1;
        }
        let copy = Lambda {
            decls: self.decls,
            code: copy_all(&self.code),
            spans,
            constants: Data::duplicate_all(&self.constants),
            captures: copy_all(&self.captures),
            ffi: copy_all(&self.ffi),
        };
        assert(copy@.spans =~= self@.spans);
        copy
    }

    /// Whether two chunks hold the same.
    pub fn same(&self, other: &Lambda) -> (same: bool)
        ensures
            same == (self@ == other@),
        decreases self,
    {
        if self.decls != other.decls || self.code.len() != other.code.len() || self.spans.len()
            != other.spans.len() || self.captures.len() != other.captures.len() || self.ffi.len()
            != other.ffi.len() {
            assert(self@.spans.len() == self.spans.len());
            assert(other@.spans.len() == other.spans.len());
            return false;
        }
        let mut i: usize = 0;
        while i < self.code.len()
            invariant
                i <= self.code.len(),
                self.code.len() == other.code.len(),
                forall|j: int| 0 <= j < i ==> self.code@[j] == other.code@[j],
            decreases self.code.len() - i,
        {
            if self.code[i] != other.code[i] {
                return false;
            }
            i = i + 1;
        }
        assert(self@.code =~= other@.code);
        let mut i: usize = 0;
        while i < self.spans.len()
            invariant
                i <= self.spans.len(),
                self.spans.len() == other.spans.len(),
                forall|j: int| 0 <= j < i ==> self@.spans[j] == other@.spans[j],
            decreases self.spans.len() - i,
        {
            if self.spans[i].0 != other.spans[i].0 || !self.spans[i].1.same(&other.spans[i].1) {
                assert(self@.spans[i as int] != other@.spans[i as int]);
                return false;
            }
            i = i + 1;
        }
        assert(self@.spans =~= other@.spans);
        let mut i: usize = 0;
        while i < self.captures.len()
            invariant
                i <= self.captures.len(),
                self.captures.len() == other.captures.len(),
                forall|j: int| 0 <= j < i ==> self.captures@[j] == other.captures@[j],
            decreases self.captures.len() - i,
        {
            if self.captures[i] != other.captures[i] {
                return false;
            }
            i = i + 1;
        }
        assert(self@.captures =~= other@.captures);
        let mut i: usize = 0;
        while i < self.ffi.len()
            invariant
                i <= self.ffi.len(),
                self.ffi.len() == other.ffi.len(),
                forall|j: int| 0 <= j < i ==> self.ffi@[j] == other.ffi@[j],
            decreases self.ffi.len() - i,
        {
            if self.ffi[i] != other.ffi[i] {
                return false;
            }
            i = i + 1;
        }
        assert(self@.ffi =~= other@.ffi);
        Data::all_same(&self.constants, &other.constants)
    }
}

} // verus!
