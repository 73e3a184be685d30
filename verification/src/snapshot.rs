//! Snapshot I/O: whole-store export to bytes, import from bytes with
//! validation, the backup-before-overwrite file pair, and the text-safe
//! transfer encoding.

use vstd::prelude::*;

use base64::Engine;

use crate::codec::{parse_snapshot, r_store, snapshot_bounded, snapshot_bytes, w_items,
    w_opt_settings, w_products, w_sales, w_u64};
use crate::data::Fault;
use crate::store::{lemma_wf_deep_view, sale_id_exists, wf_model, Store, StoreModel};

verus! {

/// What importing a byte payload does: a payload that parses to a
/// well-formed store replaces the whole state; anything else is rejected
/// with a storage fault and changes nothing.
pub open spec fn import_outcome(
    pre: Store,
    post: Store,
    bytes: Seq<u8>,
    r: Result<(), Fault>,
) -> bool {
    match parse_snapshot(bytes) {
        Some(m) => if wf_model(m) {
            r == Ok::<(), Fault>(()) && post.deep_view() == m
        } else {
            r == Err::<(), Fault>(Fault::Storage) && post == pre
        },
        None => r == Err::<(), Fault>(Fault::Storage) && post == pre,
    }
}

impl Store {
    /// The raw bytes of the whole store, in the snapshot format.
    #[verifier::rlimit(100)]
    pub fn export_database(&self) -> (r: Vec<u8>)
        requires
            self.wf(),
        ensures
            r@ == snapshot_bytes(self.deep_view()),
            snapshot_bounded(self.deep_view()),
    {
        let mut out: Vec<u8> = Vec::new();
        w_opt_settings(&mut out, &self.settings);
        w_u64(&mut out, self.products.len() as u64);
        w_products(&mut out, &self.products, 0);
        w_u64(&mut out, self.next_product_id as u64);
        w_u64(&mut out, self.sales.len() as u64);
        w_sales(&mut out, &self.sales, 0);
        w_u64(&mut out, self.sale_items.len() as u64);
        w_items(&mut out, &self.sale_items, 0);
        w_u64(&mut out, self.next_sale_id as u64);
        proof {
            assert(self.products.deep_view().skip(0) =~= self.products.deep_view());
            assert(self.sales.deep_view().skip(0) =~= self.sales.deep_view());
            assert(self.sale_items.deep_view().skip(0) =~= self.sale_items.deep_view());
            assert(out@ =~= snapshot_bytes(self.deep_view()));
        }
        out
    }

    /// Replaces the whole store with the snapshot carried by the bytes.
    /// A payload that does not parse back to a well-formed store is rejected
    /// with a storage fault, leaving the store untouched; the snapshot
    /// format itself carries no further schema than this.
    pub fn import_database(&mut self, data: &Vec<u8>) -> (r: Result<(), Fault>)
        requires
            old(self).wf(),
        ensures
            final(self).wf(),
            import_outcome(*old(self), *final(self), data@, r),
    {
        match r_store(data) {
            Some(st) => {
                proof {
                    lemma_wf_deep_view(st);
                }
                if check_wf(&st) {
                    *self = st;
                    Ok(())
                } else {
                    Err(Fault::Storage)
                }
            },
            None => Err(Fault::Storage),
        }
    }

    /// The snapshot as text: its bytes in a text-safe encoding for crossing
    /// a text-only boundary.
    pub fn export_database_cmd(&self) -> (r: String)
        requires
            self.wf(),
        ensures
            r@ == base64_of(snapshot_bytes(self.deep_view())),
            snapshot_bounded(self.deep_view()),
    {
        let bytes = self.export_database();
        b64_encode(&bytes)
    }

    /// Decodes a text-safe payload and imports the bytes it carries; text
    /// that is no encoding of any byte string is rejected with a storage
    /// fault and changes nothing.
    pub fn import_database_cmd(&mut self, data: &str) -> (r: Result<(), Fault>)
        requires
            old(self).wf(),
        ensures
            final(self).wf(),
            forall|v: Seq<u8>|
                data@ == #[trigger] base64_of(v) ==> import_outcome(
                    *old(self),
                    *final(self),
                    v,
                    r,
                ),
            (forall|v: Seq<u8>| data@ != #[trigger] base64_of(v)) ==> r == Err::<(), Fault>(
                Fault::Storage,
            ) && *final(self) == *old(self),
    {
        match b64_decode(data) {
            Some(bytes) => self.import_database(&bytes),
            None => Err(Fault::Storage),
        }
    }
}

/// A snapshot restores the exact store it was taken from: parsing the
/// exported bytes of a well-formed store yields that store's model again,
/// and imports accept it.
pub proof fn lemma_snapshot_restores_store(s: Store)
    requires
        s.wf(),
        snapshot_bounded(s.deep_view()),
    ensures
        parse_snapshot(snapshot_bytes(s.deep_view())) == Some(s.deep_view()),
        wf_model(s.deep_view()),
{
    crate::codec::lemma_snapshot_roundtrip(s.deep_view());
    lemma_wf_deep_view(s);
}

/// Decides [`Store::wf`] at run time, for validating an imported store.
fn check_wf(s: &Store) -> (r: bool)
    ensures
        r == s.wf(),
{
    if s.next_product_id < 1 || s.next_sale_id < 1 {
        return false;
    }
    let n = s.products.len();
    let mut i: usize = 0;
    while i < n
        invariant
            n == s.products@.len(),
            1 <= s.next_product_id,
            i <= n,
            forall|a: int|
                0 <= a < i ==> 1 <= (#[trigger] s.products[a]).id < s.next_product_id,
            forall|a: int, b: int|
                0 <= a < b < i ==> (#[trigger] s.products[a]).id < (#[trigger] s.products[b]).id,
        decreases n - i,
    {
        if s.products[i].id < 1 || s.products[i].id >= s.next_product_id {
            return false;
        }
        if i > 0 && s.products[i - 1].id >= s.products[i].id {
            return false;
        }
        proof {
            assert forall|a: int, b: int| 0 <= a < b < i + 1 implies (
            #[trigger] s.products[a]).id < (#[trigger] s.products[b]).id by {
                if b == i && a < i - 1 {
                    assert(s.products[a].id < s.products[i - 1].id);
                }
            }
        }
        i = i + 1;
    }
    let sn = s.sales.len();
    let mut i2: usize = 0;
    while i2 < sn
        invariant
            sn == s.sales@.len(),
            1 <= s.next_sale_id,
            i2 <= sn,
            forall|a: int| 0 <= a < i2 ==> 1 <= (#[trigger] s.sales[a]).id < s.next_sale_id,
            forall|a: int, b: int|
                0 <= a < b < i2 ==> (#[trigger] s.sales[a]).id < (#[trigger] s.sales[b]).id,
        decreases sn - i2,
    {
        if s.sales[i2].id < 1 || s.sales[i2].id >= s.next_sale_id {
            return false;
        }
        if i2 > 0 && s.sales[i2 - 1].id >= s.sales[i2].id {
            return false;
        }
        proof {
            assert forall|a: int, b: int| 0 <= a < b < i2 + 1 implies (#[trigger] s.sales[a]).id
                < (#[trigger] s.sales[b]).id by {
                if b == i2 && a < i2 - 1 {
                    assert(s.sales[a].id < s.sales[i2 - 1].id);
                }
            }
        }
        i2 = i2 + 1;
    }
    let m = s.sale_items.len();
    let mut k: usize = 0;
    while k < m
        invariant
            m == s.sale_items@.len(),
            sn == s.sales@.len(),
            k <= m,
            forall|a: int|
                0 <= a < k ==> sale_id_exists(s.sales@, (#[trigger] s.sale_items[a]).sale_id),
        decreases m - k,
    {
        let target = s.sale_items[k].sale_id;
        let mut found: bool = false;
        let mut t: usize = 0;
        while t < sn
            invariant
                sn == s.sales@.len(),
                t <= sn,
                found ==> sale_id_exists(s.sales@, target),
                !found ==> forall|a: int| 0 <= a < t ==> (#[trigger] s.sales[a]).id != target,
            decreases sn - t,
        {
            if s.sales[t].id == target {
                found = true;
            }
            t = t + 1;
        }
        if !found {
            proof {
                assert(!sale_id_exists(s.sales@, target));
            }
            return false;
        }
        k = k + 1;
    }
    true
}

// ---------------------------------------------------------------------------
// The file pair.
// ---------------------------------------------------------------------------

/// The database file and its sibling backup file, as byte contents. This
/// models the pair of on-disk files the snapshot operations manipulate; the
/// caller maps the two fields onto its real paths.
pub struct SnapshotFiles {
    pub current: Option<Vec<u8>>,
    pub backup: Option<Vec<u8>>,
}

impl SnapshotFiles {
    /// The raw bytes of the database file, or a storage fault if there is
    /// none to read.
    pub fn read_current(&self) -> (r: Result<Vec<u8>, Fault>)
        ensures
            match self.current {
                Some(c) => r matches Ok(v) && v@ == c@,
                None => r == Err::<Vec<u8>, Fault>(Fault::Storage),
            },
    {
        match &self.current {
            Some(c) => Ok(vstd::slice::slice_to_vec(c.as_slice())),
            None => Err(Fault::Storage),
        }
    }

    /// Overwrites the database file with the supplied bytes, first copying a
    /// pre-existing file to the single backup slot, overwriting any prior
    /// backup; with no prior file the backup is left alone.
    pub fn overwrite(&mut self, data: Vec<u8>)
        ensures
            final(self).current == Some(data),
            final(self).backup == if old(self).current is Some {
                old(self).current
            } else {
                old(self).backup
            },
    {
        let prior = self.current.take();
        match prior {
            Some(bytes) => {
                self.backup = Some(bytes);
            },
            None => {},
        }
        self.current = Some(data);
    }
}

// ---------------------------------------------------------------------------
// Text-safe transfer encoding.
// ---------------------------------------------------------------------------

/// The standard text encoding of a byte string.
pub uninterp spec fn base64_of(bytes: Seq<u8>) -> Seq<char>;

/// Relies on the base64 standard engine's `encode`: the result depends on
/// the bytes alone.
#[verifier::external_body]
fn b64_encode(data: &Vec<u8>) -> (r: String)
    ensures
        r@ == base64_of(data@),
{
    base64::engine::general_purpose::STANDARD.encode(data)
}

/// Relies on the base64 standard engine's `decode`: it inverts `encode`, so
/// on the encoding of any byte string it returns exactly that byte string,
/// and whatever it accepts re-encodes to the input.
#[verifier::external_body]
fn b64_decode(s: &str) -> (r: Option<Vec<u8>>)
    ensures
        r matches Some(v) ==> s@ == base64_of(v@),
        r is None ==> forall|v: Seq<u8>| s@ != #[trigger] base64_of(v),
        r matches Some(v) ==> forall|u: Seq<u8>| s@ == #[trigger] base64_of(u) ==> u == v@,
{
    base64::engine::general_purpose::STANDARD.decode(s).ok()
}

} // verus!
