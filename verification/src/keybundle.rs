//! The per-user key bundle: one opaque blob with a compare-and-swap
//! version, used by clients to exchange wrapped key material.

use vstd::prelude::*;

use crate::push::ApiError;

verus! {

/// The stored bundle: a version and an opaque JSON-shaped blob.
#[derive(Debug)]
pub struct KeyBundle {
    pub bundle_version: i64,
    pub bundle_json: String,
    pub updated_at_ms_utc: i64,
}

/// Mathematical value of a key bundle.
#[verifier::ext_equal]
pub ghost struct KeyBundleView {
    pub version: i64,
    pub json: Seq<char>,
    pub updated_at: i64,
}

impl View for KeyBundle {
    type V = KeyBundleView;

    open spec fn view(&self) -> KeyBundleView {
        KeyBundleView {
            version: self.bundle_version,
            json: self.bundle_json@,
            updated_at: self.updated_at_ms_utc,
        }
    }
}

impl Clone for KeyBundle {
    fn clone(&self) -> (r: Self)
        ensures
            r@ == self@,
    {
        KeyBundle {
            bundle_version: self.bundle_version,
            bundle_json: self.bundle_json.clone(),
            updated_at_ms_utc: self.updated_at_ms_utc,
        }
    }
}

/// A user's key-bundle slot.
#[derive(Debug)]
pub struct KeyBundleStore {
    pub bundle: Option<KeyBundle>,
}

/// Mathematical value of the slot.
pub open spec fn store_view(s: &KeyBundleStore) -> Option<KeyBundleView> {
    match s.bundle {
        Some(ref b) => Some(b@),
        None => None,
    }
}

/// The version a writer must present: the stored one, or 0 when empty.
pub open spec fn current_version_of(s: Option<KeyBundleView>) -> i64 {
    match s {
        Some(b) => b.version,
        None => 0,
    }
}

impl KeyBundleStore {
    /// An empty slot.
    pub fn new() -> (r: KeyBundleStore)
        ensures
            store_view(&r) is None,
    {
        KeyBundleStore { bundle: None }
    }

    /// The current bundle version (0 when no bundle is stored).
    pub fn current_version(&self) -> (r: i64)
        ensures
            r == current_version_of(store_view(self)),
    {
        match self.bundle {
            Some(ref b) => b.bundle_version,
            None => 0,
        }
    }

    /// Read the stored bundle; `not_found` when none was ever written.
    pub fn get(&self) -> (r: Result<KeyBundle, ApiError>)
        ensures
            match store_view(self) {
                Some(b) => r is Ok && r.unwrap()@ == b,
                None => r == Result::<KeyBundle, ApiError>::Err(ApiError::NotFound),
            },
    {
        match self.bundle {
            Some(ref b) => Ok(b.clone()),
            None => Err(ApiError::NotFound),
        }
    }

    /// Write a bundle under compare-and-swap: the writer must present the
    /// exact current version; the stored version then increments by one.
    /// On a mismatch nothing changes and `conflict` is returned.
    pub fn put(&mut self, expected_version: i64, bundle_json: String, now_ms: i64) -> (r: Result<
        i64,
        ApiError,
    >)
        requires
            current_version_of(store_view(old(self))) < i64::MAX,
        ensures
            expected_version != current_version_of(store_view(old(self))) ==> r
                == Result::<i64, ApiError>::Err(ApiError::VersionConflict) && store_view(
                final(self),
            ) == store_view(old(self)),
            expected_version == current_version_of(store_view(old(self))) ==> {
                let v = current_version_of(store_view(old(self))) + 1;
                &&& r == Result::<i64, ApiError>::Ok(v as i64)
                &&& store_view(final(self)) == Some(
                    KeyBundleView { version: v as i64, json: bundle_json@, updated_at: now_ms },
                )
            },
    {
        let current = self.current_version();
        if expected_version != current {
            return Err(ApiError::VersionConflict);
        }
        let new_version = current + 1;
        self.bundle = Some(
            KeyBundle {
                bundle_version: new_version,
                bundle_json,
                updated_at_ms_utc: now_ms,
            },
        );
        Ok(new_version)
    }
}

} // verus!
