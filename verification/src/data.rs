//! Literal values.

use vstd::prelude::*;
use crate::lambda::{Lambda, LambdaModel, lambda_model};
use vstd::std_specs::vec::axiom_vec_index_decreases;
use crate::text::{signed_decimal, push_char, push_signed_decimal, push_text};

verus! {

/// A literal value, as it stands in source code and in the constants of a chunk.
#[derive(Debug, PartialEq, Eq)]
pub enum Data {
    /// The value that holds nothing.
    Unit,
    /// A truth value.
    Boolean(bool),
    /// A whole number.
    Integer(i64),
    /// A piece of text.
    String(String),
    /// The name of a label, on its own.
    Kind(String),
    /// A value wrapped in a label.
    Label(String, Box<Data>),
    /// Several values in a row.
    Tuple(Vec<Data>),
    /// A compiled chunk of bytecode.
    Lambda(Box<Lambda>),
}

/// What a `Data` holds.
pub ghost enum DataModel {
    Unit,
    Boolean(bool),
    Integer(int),
    String(Seq<char>),
    Kind(Seq<char>),
    Label(Seq<char>, Box<DataModel>),
    Tuple(Seq<DataModel>),
    Lambda(Box<LambdaModel>),
}

/// What a literal value holds.
pub open spec fn data_model(data: Data) -> DataModel
    decreases data,
{
    match data {
        Data::Unit => DataModel::Unit,
        Data::Boolean(b) => DataModel::Boolean(b),
        Data::Integer(i) => DataModel::Integer(i as int),
        Data::String(s) => DataModel::String(s@),
        Data::Kind(name) => DataModel::Kind(name@),
        Data::Label(name, inner) => DataModel::Label(name@, Box::new(data_model(*inner))),
        Data::Tuple(items) => DataModel::Tuple(data_models(items@)),
        Data::Lambda(lambda) => DataModel::Lambda(Box::new(lambda_model(*lambda))),
    }
}

/// What each of a row of literal values holds.
pub open spec fn data_models(items: Seq<Data>) -> Seq<DataModel>
    decreases items,
{
    Seq::new(
        items.len(),
        |i: int|
            if 0 <= i < items.len() {
                data_model(items[i])
            } else {
                arbitrary()
            },
    )
}

impl Clone for Data {
    fn clone(&self) -> (copy: Data)
        ensures
            copy@ == self@,
    {
        self.duplicate()
    }
}

impl View for Data {
    type V = DataModel;

    open spec fn view(&self) -> DataModel {
        data_model(*self)
    }
}

impl DataModel {
    /// The printed form of a literal value.
    pub open spec fn printed(self) -> Seq<char>
        decreases self,
    {
        match self {
            DataModel::Unit => "()"@,
            DataModel::Boolean(b) => if b {
                "true"@
            } else {
                "false"@
            },
            DataModel::Integer(i) => signed_decimal(i),
            DataModel::String(s) => seq!['"'] + s + seq!['"'],
            DataModel::Kind(name) => name,
            DataModel::Label(name, inner) => name + seq![' '] + inner.printed(),
            DataModel::Tuple(items) => seq!['('] + DataModel::printed_row(items) + seq![')'],
            DataModel::Lambda(_) => "Function"@,
        }
    }

    /// The printed forms of a row of values, with a comma between each two.
    pub open spec fn printed_row(items: Seq<DataModel>) -> Seq<char>
        decreases items,
    {
        if items.len() == 0 {
            Seq::empty()
        } else if items.len() == 1 {
            items[0].printed()
        } else {
            DataModel::printed_row(items.drop_last()) + ", "@ + items.last().printed()
        }
    }
}

impl Data {
    /// Whether two literal values hold the same.
    pub fn same(&self, other: &Data) -> (same: bool)
        ensures
            same == (self@ == other@),
        decreases self,
    {
        match (self, other) {
            (Data::Unit, Data::Unit) => true,
            (Data::Boolean(a), Data::Boolean(b)) => *a == *b,
            (Data::Integer(a), Data::Integer(b)) => *a == *b,
            (Data::String(a), Data::String(b)) => *a == *b,
            (Data::Kind(a), Data::Kind(b)) => *a == *b,
            (Data::Label(a, inner), Data::Label(b, other_inner)) => {
                *a == *b && inner.same(other_inner)
            },
            (Data::Tuple(a), Data::Tuple(b)) => Data::all_same(a, b),
            (Data::Lambda(a), Data::Lambda(b)) => a.same(b),
            _ => false,
        }
    }

    /// Whether two rows of literal values hold the same, item by item.
    pub fn all_same(a: &Vec<Data>, b: &Vec<Data>) -> (same: bool)
        ensures
            same == (data_models(a@) == data_models(b@)),
        decreases a,
    {
        if a.len() != b.len() {
            assert(data_models(a@).len() != data_models(b@).len());
            return false;
        }
        let mut i: usize = 0;
        while i < a.len()
            invariant
                i <= a.len(),
                a.len() == b.len(),
                forall|j: int| 0 <= j < i ==> data_model(a@[j]) == data_model(b@[j]),
            decreases a.len() - i,
        {
            proof {
                axiom_vec_index_decreases(*a, i as int);
            }
            if !a[i].same(&b[i]) {
                assert(data_models(a@)[i as int] != data_models(b@)[i as int]);
                return false;
            }
            i = i + 1;
        }
        assert(data_models(a@) =~= data_models(b@));
        true
    }

    /// A copy of the value.
    pub fn duplicate(&self) -> (copy: Data)
        ensures
            copy@ == self@,
        decreases self,
    {
        match self {
            Data::Unit => Data::Unit,
            Data::Boolean(b) => Data::Boolean(*b),
            Data::Integer(i) => Data::Integer(*i),
            Data::String(s) => Data::String(s.clone()),
            Data::Kind(name) => Data::Kind(name.clone()),
            Data::Label(name, inner) => Data::Label(name.clone(), Box::new(inner.duplicate())),
            Data::Tuple(items) => Data::Tuple(Data::duplicate_all(items)),
            Data::Lambda(lambda) => Data::Lambda(Box::new(lambda.duplicate())),
        }
    }

    /// A copy of each value of a row.
    pub fn duplicate_all(items: &Vec<Data>) -> (copies: Vec<Data>)
        ensures
            data_models(copies@) == data_models(items@),
        decreases items,
    {
        let mut copies: Vec<Data> = Vec::new();
        let mut i: usize = 0;
        while i < items.len()
            invariant
                i <= items.len(),
                copies.len() == i,
                forall|j: int| 0 <= j < i ==> data_model(copies@[j]) == data_model(items@[j]),
            decreases items.len() - i,
        {
            proof {
                axiom_vec_index_decreases(*items, i as int);
            }
            copies.push(items[i].duplicate());
            i = i + 1;
        }
        assert(data_models(copies@) =~= data_models(items@));
        copies
    }

    /// Appends the printed form of the value to `text`.
    pub fn push_printed(&self, text: &mut String)
        ensures
            final(text)@ == old(text)@ + self@.printed(),
        decreases self,
    {
        match self {
            Data::Unit => push_text(text, "()"),
            Data::Boolean(b) => {
                if *b {
                    push_text(text, "true")
                } else {
                    push_text(text, "false")
                }
            },
            Data::Integer(i) => push_signed_decimal(text, *i),
            Data::String(s) => {
                push_char(text, '"');
                push_text(text, s.as_str());
                push_char(text, '"');
                assert(text@ =~= old(text)@ + self@.printed());
            },
            Data::Kind(name) => push_text(text, name.as_str()),
            Data::Label(name, inner) => {
                push_text(text, name.as_str());
                push_char(text, ' ');
                inner.push_printed(text);
                assert(text@ =~= old(text)@ + self@.printed());
            },
            Data::Tuple(items) => {
                push_char(text, '(');
                let ghost opened = text@;
                let mut i: usize = 0;
                assert(data_models(items@).take(0) =~= Seq::empty());
                while i < items.len()
                    invariant
                        i <= items.len(),
                        self is Tuple,
                        self->Tuple_0 == *items,
                        text@ == opened + DataModel::printed_row(data_models(items@).take(i as int)),
                    decreases items.len() - i,
                {
                    proof {
                        axiom_vec_index_decreases(*items, i as int);
                        let ghost row = data_models(items@).take(i + 1);
                        assert(row.drop_last() =~= data_models(items@).take(i as int));
                        assert(row.last() == items@[i as int]@);
                    }
                    if i > 0 {
                        push_text(text, ", ");
                    }
                    items[i].push_printed(text);
                    i = i + 1;
                    assert(text@ =~= opened + DataModel::printed_row(
                        data_models(items@).take(i as int),
                    ));
                }
                assert(data_models(items@).take(i as int) =~= data_models(items@));
                push_char(text, ')');
                assert(text@ =~= old(text)@ + self@.printed());
            },
            Data::Lambda(_) => push_text(text, "Function"),
        }
    }

    /// The printed form of the value.
    pub fn printed(&self) -> (text: String)
        ensures
            text@ == self@.printed(),
    {
        let mut text = String::new();
        self.push_printed(&mut text);
        assert(Seq::<char>::empty() + self@.printed() =~= self@.printed());
        text
    }
}

} // verus!
