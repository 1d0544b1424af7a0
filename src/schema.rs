//! The declared columns of a passenger manifest: each one's header name, the
//! type its fields must read as, and whether an empty field stands for no value.

use vstd::prelude::*;

use crate::fields::{chars_of, float_text, is_float_text, parse_unsigned, unsigned_of};

verus! {

/// The type that the fields of a column must read as.
#[derive(Clone, Copy, Debug, PartialEq, Eq, Structural)]
pub enum FieldKind {
    Unsigned,
    Float,
    Text,
}

/// A column of the manifest.
#[derive(Clone, Copy, Debug, PartialEq, Eq, Structural)]
pub enum Column {
    PassengerId,
    Survived,
    Pclass,
    Name,
    Sex,
    Age,
    SibSp,
    Parch,
    Ticket,
    Fare,
    Cabin,
    Embarked,
}

impl Column {
    /// The name that the header gives the column.
    pub open spec fn spec_name(self) -> Seq<char> {
        match self {
            Column::PassengerId => "PassengerId"@,
            Column::Survived => "Survived"@,
            Column::Pclass => "Pclass"@,
            Column::Name => "Name"@,
            Column::Sex => "Sex"@,
            Column::Age => "Age"@,
            Column::SibSp => "SibSp"@,
            Column::Parch => "Parch"@,
            Column::Ticket => "Ticket"@,
            Column::Fare => "Fare"@,
            Column::Cabin => "Cabin"@,
            Column::Embarked => "Embarked"@,
        }
    }

    pub open spec fn spec_kind(self) -> FieldKind {
        match self {
            Column::PassengerId | Column::Survived | Column::Pclass | Column::SibSp
            | Column::Parch => FieldKind::Unsigned,
            Column::Age | Column::Fare => FieldKind::Float,
            _ => FieldKind::Text,
        }
    }

    pub open spec fn spec_optional(self) -> bool {
        match self {
            Column::Age | Column::Cabin | Column::Embarked => true,
            _ => false,
        }
    }

    pub fn name(&self) -> (r: &'static str)
        ensures
            r@ == self.spec_name(),
    {
        match self {
            Column::PassengerId => "PassengerId",
            Column::Survived => "Survived",
            Column::Pclass => "Pclass",
            Column::Name => "Name",
            Column::Sex => "Sex",
            Column::Age => "Age",
            Column::SibSp => "SibSp",
            Column::Parch => "Parch",
            Column::Ticket => "Ticket",
            Column::Fare => "Fare",
            Column::Cabin => "Cabin",
            Column::Embarked => "Embarked",
        }
    }

    pub fn kind(&self) -> (r: FieldKind)
        ensures
            r == self.spec_kind(),
    {
        match self {
            Column::PassengerId | Column::Survived | Column::Pclass | Column::SibSp
            | Column::Parch => FieldKind::Unsigned,
            Column::Age | Column::Fare => FieldKind::Float,
            _ => FieldKind::Text,
        }
    }

    pub fn optional(&self) -> (r: bool)
        ensures
            r == self.spec_optional(),
    {
        match self {
            Column::Age | Column::Cabin | Column::Embarked => true,
            _ => false,
        }
    }
}

/// The declared columns, in the order the schema lists them.
pub open spec fn schema() -> Seq<Column> {
    seq![
        Column::PassengerId,
        Column::Survived,
        Column::Pclass,
        Column::Name,
        Column::Sex,
        Column::Age,
        Column::SibSp,
        Column::Parch,
        Column::Ticket,
        Column::Fare,
        Column::Cabin,
        Column::Embarked,
    ]
}

/// Every column is declared.
pub proof fn lemma_schema_covers(c: Column)
    ensures
        schema().contains(c),
{
    let k: int = match c {
        Column::PassengerId => 0,
        Column::Survived => 1,
        Column::Pclass => 2,
        Column::Name => 3,
        Column::Sex => 4,
        Column::Age => 5,
        Column::SibSp => 6,
        Column::Parch => 7,
        Column::Ticket => 8,
        Column::Fare => 9,
        Column::Cabin => 10,
        Column::Embarked => 11,
    };
    assert(schema()[k] == c);
}

pub fn columns() -> (r: Vec<Column>)
    ensures
        r@ == schema(),
{
    let r = vec![
        Column::PassengerId,
        Column::Survived,
        Column::Pclass,
        Column::Name,
        Column::Sex,
        Column::Age,
        Column::SibSp,
        Column::Parch,
        Column::Ticket,
        Column::Fare,
        Column::Cabin,
        Column::Embarked,
    ];
    assert(r@ =~= schema());
    r
}

/// Whether a field reads as a value of the column's type: an empty field of an
/// optional column stands for no value; text fields take anything.
pub open spec fn field_reads_as(c: Column, f: Seq<char>) -> bool {
    if c.spec_optional() && f.len() == 0 {
        true
    } else {
        match c.spec_kind() {
            FieldKind::Unsigned => unsigned_of(f) is Some,
            FieldKind::Float => float_text(f),
            FieldKind::Text => true,
        }
    }
}

pub fn field_fits(c: Column, f: &str) -> (r: bool)
    ensures
        r == field_reads_as(c, f@),
{
    let cs = chars_of(f);
    if c.optional() && cs.len() == 0 {
        return true;
    }
    match c.kind() {
        FieldKind::Unsigned => parse_unsigned(&cs).is_some(),
        FieldKind::Float => is_float_text(&cs),
        FieldKind::Text => true,
    }
}

} // verus!
