//! The values a vertex can hold.

use vstd::prelude::*;

verus! {

/// A JSON number, kept in the form in which it was written.
///
/// Whole numbers are held as integers. Any other number is held as its
/// literal, so that the library never computes with fractions.
#[derive(Debug, PartialEq, Eq)]
pub enum Numeric {
    Unsigned(u64),
    /// A whole number below zero.
    Signed(i64),
    /// The literal of a number that is not whole, such as `7.5`.
    Real(String),
}

/// What a [`Numeric`] stands for in contracts.
#[verifier::ext_equal]
pub enum NumericView {
    Unsigned(u64),
    Signed(i64),
    Real(Seq<char>),
}

impl View for Numeric {
    type V = NumericView;

    open spec fn view(&self) -> NumericView {
        match self {
            Numeric::Unsigned(n) => NumericView::Unsigned(*n),
            Numeric::Signed(n) => NumericView::Signed(*n),
            Numeric::Real(literal) => NumericView::Real(literal@),
        }
    }
}

impl Clone for Numeric {
    fn clone(&self) -> (copy: Self)
        ensures
            copy@ == self@,
    {
        match self {
            Numeric::Unsigned(n) => Numeric::Unsigned(*n),
            Numeric::Signed(n) => Numeric::Signed(*n),
            Numeric::Real(literal) => Numeric::Real(literal.clone()),
        }
    }
}

/// A value of the graph: a scalar, a link to a vertex, or the values of a
/// vertex's children listed by key.
#[derive(Debug, PartialEq, Eq)]
pub enum GunValue {
    Null,
    Bit(bool),
    Number(Numeric),
    Text(String),
    Link(usize),
    Children(Vec<(String, GunValue)>),
}

/// What a [`GunValue`] stands for in contracts.
#[verifier::ext_equal]
pub enum ValueView {
    Null,
    Bit(bool),
    Number(NumericView),
    Text(Seq<char>),
    Link(usize),
    Children(Seq<(Seq<char>, ValueView)>),
}

impl View for GunValue {
    type V = ValueView;

    open spec fn view(&self) -> ValueView
        decreases self,
    {
        match self {
            GunValue::Null => ValueView::Null,
            GunValue::Bit(b) => ValueView::Bit(*b),
            GunValue::Number(n) => ValueView::Number(n@),
            GunValue::Text(s) => ValueView::Text(s@),
            GunValue::Link(id) => ValueView::Link(*id),
            GunValue::Children(entries) => ValueView::Children(entries_view(entries@)),
        }
    }
}

/// The entries of a list of children, each by its view.
pub open spec fn entries_view(entries: Seq<(String, GunValue)>) -> Seq<(Seq<char>, ValueView)>
    decreases entries,
{
    Seq::new(
        entries.len(),
        |i: int|
            if 0 <= i < entries.len() {
                (entries[i].0@, entries[i].1@)
            } else {
                (Seq::empty(), ValueView::Null)
            },
    )
}

impl Clone for GunValue {
    #[verifier::loop_isolation(false)]
    fn clone(&self) -> (copy: Self)
        ensures
            copy@ == self@,
        decreases self,
    {
        match self {
            GunValue::Null => GunValue::Null,
            GunValue::Bit(b) => GunValue::Bit(*b),
            GunValue::Number(n) => GunValue::Number(n.clone()),
            GunValue::Text(s) => GunValue::Text(s.clone()),
            GunValue::Link(id) => GunValue::Link(*id),
            GunValue::Children(entries) => {
                let mut copies: Vec<(String, GunValue)> = Vec::new();
                let mut i: usize = 0;
                while i < entries.len()
                    invariant
                        i <= entries.len(),
                        copies@.len() == i,
                        forall|j: int|
                            0 <= j < i ==> copies@[j].0@ == entries@[j].0@ && copies@[j].1@
                                == entries@[j].1@,
                    decreases entries.len() - i,
                {
                    let entry = &entries[i];
                    copies.push((entry.0.clone(), entry.1.clone()));
                    i += 1;
                }
                assert(entries_view(copies@) =~= entries_view(entries@));
                GunValue::Children(copies)
            },
        }
    }
}

impl From<String> for GunValue {
    fn from(s: String) -> (value: GunValue)
        ensures
            value@ == ValueView::Text(s@),
    {
        GunValue::Text(s)
    }
}

impl vstd::std_specs::convert::FromSpecImpl<String> for GunValue {
    open spec fn obeys_from_spec() -> bool {
        true
    }

    open spec fn from_spec(s: String) -> GunValue {
        GunValue::Text(s)
    }
}

impl<'a> From<&'a str> for GunValue {
    fn from(s: &'a str) -> (value: GunValue)
        ensures
            value@ == ValueView::Text(s@),
    {
        GunValue::Text(String::from_str(s))
    }
}

impl<'a> vstd::std_specs::convert::FromSpecImpl<&'a str> for GunValue {
    open spec fn obeys_from_spec() -> bool {
        false
    }

    open spec fn from_spec(s: &'a str) -> GunValue {
        arbitrary()
    }
}

} // verus!
