use vstd::prelude::*;

verus! {

broadcast use vstd::std_specs::vec::axiom_vec_index_decreases;

/// The mathematical model of a structured claim value: the abstraction that
/// every contract in this crate speaks of. Strings are carried as their
/// UTF-8 bytes; a floating-point number is carried as its 64 raw bits, so
/// that the pipeline moves it losslessly without arithmetic on it.
pub enum ValModel {
    Null,
    Bool(bool),
    Int(int),
    Float(u64),
    Text(Seq<u8>),
    Arr(Seq<ValModel>),
    Obj(Seq<(Seq<u8>, ValModel)>),
}

/// An owned structured claim value: a mapping with byte-string keys, an
/// ordered sequence, a UTF-8 string held as its bytes, an integer, a
/// floating-point number held as its 64 raw bits, a boolean, or null.
#[derive(Debug, PartialEq, Eq)]
pub enum ClaimValue {
    Null,
    Bool(bool),
    Int(i64),
    Float(u64),
    Text(Vec<u8>),
    Arr(Vec<ClaimValue>),
    Obj(Vec<(Vec<u8>, ClaimValue)>),
}

/// The model that a `ClaimValue` denotes.
pub open spec fn view_of(v: ClaimValue) -> ValModel
    decreases v,
{
    match v {
        ClaimValue::Null => ValModel::Null,
        ClaimValue::Bool(b) => ValModel::Bool(b),
        ClaimValue::Int(n) => ValModel::Int(n as int),
        ClaimValue::Float(bits) => ValModel::Float(bits),
        ClaimValue::Text(t) => ValModel::Text(t@),
        ClaimValue::Arr(items) => ValModel::Arr(views_of(items@)),
        ClaimValue::Obj(entries) => ValModel::Obj(entry_views_of(entries@)),
    }
}

/// The models of a sequence of claim values, element by element.
pub open spec fn views_of(items: Seq<ClaimValue>) -> Seq<ValModel>
    decreases items,
{
    if items.len() == 0 {
        Seq::empty()
    } else {
        seq![view_of(items[0])] + views_of(items.skip(1))
    }
}

/// The models of a sequence of mapping entries, element by element.
pub open spec fn entry_views_of(entries: Seq<(Vec<u8>, ClaimValue)>) -> Seq<(Seq<u8>, ValModel)>
    decreases entries,
{
    if entries.len() == 0 {
        Seq::empty()
    } else {
        seq![(entries[0].0@, view_of(entries[0].1))] + entry_views_of(entries.skip(1))
    }
}

/// `views_of` maps the sequence element by element.
pub proof fn lemma_views_index(items: Seq<ClaimValue>)
    ensures
        views_of(items).len() == items.len(),
        forall|i: int| 0 <= i < items.len() ==> views_of(items)[i] == view_of(#[trigger] items[i]),
    decreases items,
{
    if items.len() > 0 {
        lemma_views_index(items.skip(1));
        assert forall|i: int| 0 <= i < items.len() implies views_of(items)[i] == view_of(
            #[trigger] items[i],
        ) by {
            if i > 0 {
                assert(views_of(items)[i] == views_of(items.skip(1))[i - 1]);
                assert(items.skip(1)[i - 1] == items[i]);
            }
        }
    }
}

/// `entry_views_of` maps the sequence entry by entry.
pub proof fn lemma_entry_views_index(entries: Seq<(Vec<u8>, ClaimValue)>)
    ensures
        entry_views_of(entries).len() == entries.len(),
        forall|i: int|
            0 <= i < entries.len() ==> entry_views_of(entries)[i] == ((#[trigger] entries[i]).0@,
            view_of(entries[i].1)),
    decreases entries,
{
    if entries.len() > 0 {
        lemma_entry_views_index(entries.skip(1));
        assert forall|i: int|
            0 <= i < entries.len() implies entry_views_of(entries)[i] == ((
        #[trigger] entries[i]).0@, view_of(entries[i].1)) by {
            if i > 0 {
                assert(entry_views_of(entries)[i] == entry_views_of(entries.skip(1))[i - 1]);
                assert(entries.skip(1)[i - 1] == entries[i]);
            }
        }
    }
}

/// Appending a value appends its model.
pub proof fn lemma_views_snoc(items: Seq<ClaimValue>, v: ClaimValue)
    ensures
        views_of(items.push(v)) == views_of(items) + seq![view_of(v)],
{
    lemma_views_index(items);
    lemma_views_index(items.push(v));
    let lhs = views_of(items.push(v));
    let rhs = views_of(items) + seq![view_of(v)];
    assert forall|i: int| 0 <= i < lhs.len() implies lhs[i] == rhs[i] by {
        assert(lhs[i] == view_of(items.push(v)[i]));
        if i < items.len() {
            assert(items.push(v)[i] == items[i]);
        } else {
            assert(items.push(v)[i] == v);
        }
    }
    assert(lhs =~= rhs);
}

/// Appending an entry appends its model.
pub proof fn lemma_entry_views_snoc(entries: Seq<(Vec<u8>, ClaimValue)>, e: (Vec<u8>, ClaimValue))
    ensures
        entry_views_of(entries.push(e)) == entry_views_of(entries) + seq![(e.0@, view_of(e.1))],
{
    lemma_entry_views_index(entries);
    lemma_entry_views_index(entries.push(e));
    let lhs = entry_views_of(entries.push(e));
    let rhs = entry_views_of(entries) + seq![(e.0@, view_of(e.1))];
    assert forall|i: int| 0 <= i < lhs.len() implies lhs[i] == rhs[i] by {
        assert(lhs[i] == (entries.push(e)[i].0@, view_of(entries.push(e)[i].1)));
        if i < entries.len() {
            assert(entries.push(e)[i] == entries[i]);
        } else {
            assert(entries.push(e)[i] == e);
        }
    }
    assert(lhs =~= rhs);
}

impl View for ClaimValue {
    type V = ValModel;

    open spec fn view(&self) -> ValModel {
        view_of(*self)
    }
}

} // verus!
