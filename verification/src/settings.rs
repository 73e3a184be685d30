//! Settings repository: read and whole-row replace of the singleton
//! configuration row.

use vstd::prelude::*;

use crate::data::{clone_settings, Fault, Settings};
use crate::store::Store;

verus! {

/// What a settings read returns: the singleton row, or a not-found fault if
/// the seed row was never created.
pub open spec fn settings_read(s: Store) -> Result<Settings, Fault> {
    match s.settings {
        Some(v) => Ok(v),
        None => Err(Fault::NotFound),
    }
}

impl Store {
    /// Returns the singleton settings row; fails with a not-found fault
    /// exactly when the row was never seeded (which cannot happen after
    /// [`Store::initialize_database`]).
    pub fn get_settings(&self) -> (r: Result<Settings, Fault>)
        requires
            self.wf(),
        ensures
            r == settings_read(*self),
    {
        match &self.settings {
            Some(v) => Ok(clone_settings(v)),
            None => Err(Fault::NotFound),
        }
    }

    /// Replaces the whole settings row with the supplied one: every field
    /// takes the caller's value, explicit `None`s included. Nothing else in
    /// the store changes.
    pub fn save_settings(&mut self, settings: Settings)
        requires
            old(self).wf(),
        ensures
            final(self).wf(),
            final(self).settings == Some(settings),
            final(self).products == old(self).products,
            final(self).sales == old(self).sales,
            final(self).sale_items == old(self).sale_items,
            final(self).next_product_id == old(self).next_product_id,
            final(self).next_sale_id == old(self).next_sale_id,
    {
        self.settings = Some(settings);
    }
}

/// Read-back law: saving a settings row and reading it returns exactly the
/// fields supplied, explicit `None`s included.
pub proof fn lemma_save_then_get(s: Store, settings: Settings)
    ensures
        settings_read(Store { settings: Some(settings), ..s }) == Ok::<Settings, Fault>(settings),
{
}

} // verus!
