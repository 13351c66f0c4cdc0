//! Places in memory whose values are dropped only where this is asked for.
use core::mem::ManuallyDrop;
use core::ops::DerefMut;
use vstd::prelude::*;

verus! {

/// A place for a value, which may not be initialized.
///
/// The value is not dropped when another one is written over it, nor when the place itself goes:
/// only [`Place::drop_value`] drops it.
#[derive(Debug)]
pub struct Place<T> {
    kept: Option<ManuallyDrop<T>>,
}

impl<T> View for Place<T> {
    type V = Option<T>;

    closed spec fn view(&self) -> Option<T> {
        match self.kept {
            Some(kept) => Some(kept@),
            None => None,
        }
    }
}

/// What places hold.
pub open spec fn contents<T>(places: Seq<Place<T>>) -> Seq<Option<T>> {
    places.map_values(|place: Place<T>| place@)
}

impl<T> Place<T> {
    /// A place that is not initialized.
    #[inline]
    pub fn uninit() -> (place: Self)
        ensures
            place@ is None,
    {
        Place { kept: None }
    }

    /// A place that is initialized with a value.
    #[inline]
    pub fn new(value: T) -> (place: Self)
        ensures
            place@ == Some(value),
    {
        Place { kept: Some(ManuallyDrop::new(value)) }
    }

    /// Write a value into the place, without dropping one that was there before. Returns a mutable
    /// reference to the written value.
    #[inline]
    pub fn write(&mut self, value: T) -> (written: &mut T)
        ensures
            *written == value,
            final(self)@ == Some(*final(written)),
    {
        access(self.kept.insert(ManuallyDrop::new(value)))
    }

    /// The value, if the place is initialized.
    #[inline]
    pub fn get(&self) -> (value: Option<&T>)
        ensures
            value is Some <==> self@ is Some,
            value matches Some(v) ==> self@ == Some(*v),
    {
        match &self.kept {
            Some(kept) => Some(&**kept),
            None => None,
        }
    }

    /// Drop the value, if the place is initialized. It is not afterwards.
    #[inline]
    pub fn drop_value(&mut self)
        ensures
            final(self)@ is None,
    {
        if let Some(kept) = self.kept.take() {
            let _value: T = ManuallyDrop::into_inner(kept);
        }
    }
}

/// Mutable access to a value that is not to be dropped.
///
/// This is `DerefMut::deref_mut` of `ManuallyDrop`. The reference is to the value that was wrapped,
/// and what it holds in the end is what is wrapped from there on.
#[inline]
#[verifier::external_body]
fn access<T>(kept: &mut ManuallyDrop<T>) -> (value: &mut T)
    ensures
        *value == old(kept)@,
        final(kept)@ == *final(value),
{
    kept.deref_mut()
}

/// What places hold is what each of them holds, in order.
pub proof fn law_contents_are_what_each_place_holds<T>(places: Seq<Place<T>>, i: int)
    requires
        0 <= i < places.len(),
    ensures
        contents(places).len() == places.len(),
        contents(places)[i] == places[i]@,
{
}

/// Replacing a place replaces what it holds.
pub(crate) proof fn lemma_contents_update<T>(places: Seq<Place<T>>, i: int)
    requires
        0 <= i < places.len(),
    ensures
        forall|place: Place<T>|
            contents(#[trigger] places.update(i, place)) == contents(places).update(i, place@),
{
    assert forall|place: Place<T>|
        contents(#[trigger] places.update(i, place)) == contents(places).update(i, place@) by {
        assert(contents(places.update(i, place)) =~= contents(places).update(i, place@));
    }
}

/// A part of some places holds that part of what they hold.
pub(crate) proof fn lemma_contents_subrange<T>(places: Seq<Place<T>>, from: int, to: int)
    requires
        0 <= from <= to <= places.len(),
    ensures
        contents(places.subrange(from, to)) == contents(places).subrange(from, to),
{
    assert(contents(places.subrange(from, to)) =~= contents(places).subrange(from, to));
}

} // verus!
