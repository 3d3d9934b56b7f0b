use crate::avltree::Avltree;
use crate::dual_segtree::{DualSegtree, Ops};
use std::fmt::{Debug, DebugMap, DebugSet, Error, Formatter};
use vstd::prelude::*;

verus! {

/// `std::fmt::DebugSet`, a set that is being written.
#[verifier::external_type_specification]
#[verifier::external_body]
pub struct ExDebugSet<'a, 'b: 'a>(DebugSet<'a, 'b>);

/// `std::fmt::DebugMap`, a map that is being written.
#[verifier::external_type_specification]
#[verifier::external_body]
pub struct ExDebugMap<'a, 'b: 'a>(DebugMap<'a, 'b>);

/// `std::fmt::Formatter`, where formatted text goes.
#[verifier::external_type_specification]
#[verifier::external_body]
pub struct ExFormatter<'a>(Formatter<'a>);

/// `std::fmt::Error`, that writing failed.
#[verifier::external_type_specification]
#[verifier::external_body]
pub struct ExError(Error);

/// `DebugSet::entry`: adds one entry to the set that is being written;
/// nothing is claimed of what is written.
#[verifier::external_body]
pub(crate) fn set_entry<K: Debug>(debug_set: &mut DebugSet<'_, '_>, key: &K) {
    debug_set.entry(key);
}

/// `DebugMap::entry`: adds one entry to the map that is being written;
/// nothing is claimed of what is written.
#[verifier::external_body]
pub(crate) fn map_entry<K: Debug, V: Debug>(debug_map: &mut DebugMap<'_, '_>, key: &K, value: &V) {
    debug_map.entry(key, value);
}

/// `Formatter::debug_map`: starts to write a map.
#[verifier::external_body]
pub(crate) fn start_map<'a, 'b>(f: &'a mut Formatter<'b>) -> DebugMap<'a, 'b> {
    f.debug_map()
}

/// `DebugMap::finish`: ends the map; whether writing failed.
#[verifier::external_body]
pub(crate) fn finish_map(debug_map: &mut DebugMap<'_, '_>) -> Result<(), Error> {
    debug_map.finish()
}

/// `Debug::fmt` of a vector: writes the vector as a list; whether writing
/// failed.
#[verifier::external_body]
pub(crate) fn write_list<A: Debug>(list: &Vec<A>, f: &mut Formatter<'_>) -> Result<(), Error> {
    list.fmt(f)
}

impl<O: Ops> Debug for DualSegtree<O> {
    fn fmt(&self, f: &mut Formatter<'_>) -> Result<(), Error> {
        let list = self.silent_collect();
        write_list(&list, f)
    }
}

impl<K: Debug, V: Debug> Debug for Avltree<K, V> {
    fn fmt(&self, f: &mut Formatter<'_>) -> Result<(), Error> {
        let mut debug_map = start_map(f);
        self.fmt_impl(&mut debug_map);
        finish_map(&mut debug_map)
    }
}

} // verus!
