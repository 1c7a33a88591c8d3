//! Persistence gateway and route management over the `kv` store.
//!
//! The store is an external collaborator: an opaque string-to-string map
//! with put, get, iterate and flush.  Each operation goes through a small
//! trusted method whose contract speaks of [`bucket_contents`]; everything
//! around those calls is verified.

use vstd::prelude::*;

use crate::codec::encode_url;
use crate::codec::encoded_key;
use crate::errors::AddError;
use crate::record::serialize_record;
use crate::response::capture_file;
use crate::response::StorableResponse;
use crate::routes::decoded_paths;
use crate::routes::key_ok;
use crate::routes::key_path;
use crate::routes::lemma_listed_paths_member;
use crate::routes::lemma_table_map_value;
use crate::routes::listed_paths;
use crate::routes::materialize;
use crate::routes::paths_view;
use crate::routes::table_map;
use crate::routes::valid_item;
use crate::routes::RouteTable;

verus! {

#[verifier::external_type_specification]
#[verifier::external_body]
pub struct ExKvError(kv::Error);

#[verifier::external_type_specification]
#[verifier::external_body]
pub struct ExKvStore(kv::Store);

/// One open bucket of the persistent store, holding string keys and string
/// values.  `kv::Bucket` mutates through a shared handle, so the handle is
/// held opaquely and every operation goes through a trusted method whose
/// contract speaks of [`bucket_contents`].
#[verifier::external_body]
pub struct StoreBucket {
    bucket: kv::Bucket<'static, String, String>,
}

/// The key-value pairs the bucket holds.
pub uninterp spec fn bucket_contents(b: StoreBucket) -> Map<Seq<char>, Seq<char>>;

/// True when `p` is the decoding of some key stored in `m`.
pub open spec fn listed_path(m: Map<Seq<char>, Seq<char>>, p: Seq<char>) -> bool {
    exists|k: Seq<char>| m.contains_key(k) && key_ok(k) && p == key_path(k)
}

impl StoreBucket {
    /// Relies on `kv::Bucket::set` (a sled tree insert): on success the
    /// pair is stored, replacing any previous value under the key.
    #[verifier::external_body]
    pub fn put(&mut self, key: &String, value: &String) -> (r: Result<(), kv::Error>)
        ensures
            r is Ok ==> bucket_contents(*final(self)) == bucket_contents(*old(self)).insert(
                key@,
                value@,
            ),
    {
        match self.bucket.set(key, value) {
            Ok(_) => Ok(()),
            Err(e) => Err(e),
        }
    }

    /// Relies on `kv::Bucket::get` (a sled tree get): the value stored
    /// under the key, if any.
    #[verifier::external_body]
    pub fn get(&self, key: &String) -> (r: Result<Option<String>, kv::Error>)
        ensures
            r matches Ok(Some(v)) ==> bucket_contents(*self).contains_key(key@)
                && bucket_contents(*self)[key@] == v@,
            r matches Ok(None) ==> !bucket_contents(*self).contains_key(key@),
    {
        self.bucket.get(key)
    }

    /// Relies on `kv::Bucket::iter` and on `kv::Item::key` and
    /// `kv::Item::value`: a scan of the bucket, one element per step, each
    /// step independently fallible.  Every successful element is a stored
    /// pair, and no two successful elements share a key.
    #[verifier::external_body]
    pub fn items(&self) -> (r: Vec<Result<(String, String), kv::Error>>)
        ensures
            forall|i: int|
                0 <= i < r@.len() ==> ((#[trigger] r@[i]) matches Ok(kv) ==> bucket_contents(
                    *self,
                ).contains_pair(kv.0@, kv.1@)),
            forall|i: int, j: int|
                0 <= i < j < r@.len() ==> !((#[trigger] r@[i]) matches Ok(a) && (#[trigger] r@[j])
                    matches Ok(b) && a.0@ == b.0@),
    {
        let mut out = Vec::new();
        for item in self.bucket.iter() {
            out.push(match item {
                Ok(it) => match it.key::<String>() {
                    Ok(k) => match it.value::<String>() {
                        Ok(v) => Ok((k, v)),
                        Err(e) => Err(e),
                    },
                    Err(e) => Err(e),
                },
                Err(e) => Err(e),
            });
        }
        out
    }

    /// Relies on `kv::Bucket::flush` (a sled flush): write the bucket out
    /// to disk; the number of bytes written.
    #[verifier::external_body]
    pub fn flush(&self) -> Result<usize, kv::Error> {
        self.bucket.flush()
    }
}

/// Manages the persisted routes of one bucket: adding records, listing
/// them, and materializing the route table at serve time.
pub struct RouteManager {
    /// The open bucket every operation goes through.
    pub bucket: StoreBucket,
}

impl RouteManager {
    /// The pairs persisted in the managed bucket.
    pub open spec fn contents(&self) -> Map<Seq<char>, Seq<char>> {
        bucket_contents(self.bucket)
    }

    /// Relies on `kv::Config::new` and `kv::Store::new`: open the store
    /// directory at `config_path`, creating it if needed.
    #[verifier::external_body]
    pub fn new_storage(config_path: String) -> Result<kv::Store, kv::Error> {
        let store_config = kv::Config::new(config_path);
        kv::Store::new(store_config)
    }

    /// Relies on `kv::Store::bucket`: open the named bucket of string keys
    /// and values.  What it already holds on disk is unknown.  Opening the
    /// same named bucket twice yields two handles onto one underlying tree
    /// whose modeled contents are tracked separately; keep to one handle
    /// per bucket.
    #[verifier::external_body]
    pub fn new_bucket(store: &kv::Store, bucket_name: &str) -> Result<StoreBucket, kv::Error> {
        match store.bucket::<String, String>(Some(bucket_name)) {
            Ok(bucket) => Ok(StoreBucket { bucket }),
            Err(e) => Err(e),
        }
    }

    /// Open the store at `config_path` and the named bucket within it.
    pub fn new(config_path: String, bucket_name: String) -> Result<RouteManager, kv::Error> {
        let store = match Self::new_storage(config_path) {
            Ok(s) => s,
            Err(e) => {
                return Err(e);
            },
        };
        match Self::new_bucket(&store, bucket_name.as_str()) {
            Ok(bucket) => Ok(RouteManager { bucket }),
            Err(e) => Err(e),
        }
    }

    /// Store `value` under `key`, replacing any previous value.
    pub fn set_value_for_key(bucket: &mut StoreBucket, key: String, value: String) -> (r: Result<
        (),
        kv::Error,
    >)
        ensures
            r is Ok ==> bucket_contents(*final(bucket)) == bucket_contents(*old(bucket)).insert(
                key@,
                value@,
            ),
    {
        bucket.put(&key, &value)
    }

    /// The value stored under `key`, if any.
    pub fn get_value_for_key(bucket: &StoreBucket, key: &String) -> (r: Result<
        Option<String>,
        kv::Error,
    >)
        ensures
            r matches Ok(Some(v)) ==> bucket_contents(*bucket).contains_key(key@)
                && bucket_contents(*bucket)[key@] == v@,
            r matches Ok(None) ==> !bucket_contents(*bucket).contains_key(key@),
    {
        bucket.get(key)
    }

    /// Flush the bucket to disk; the number of bytes written.
    pub fn clean_storage(self) -> Result<usize, kv::Error> {
        self.bucket.flush()
    }

    /// Persist an already captured response under `alias_endpoint`: the
    /// alias is encoded into a key, the response serialized, and the pair
    /// stored, replacing any record with the same alias.  Only the store
    /// itself can fail.
    pub fn add_response(&mut self, alias_endpoint: &String, response: &StorableResponse) -> (r:
        Result<(), AddError>)
        ensures
            r is Ok ==> final(self).contents() == old(self).contents().insert(
                encoded_key(alias_endpoint@),
                serialize_record(response.body@, response.headers@),
            ),
            r is Err ==> r == Err::<(), AddError>(AddError::Store),
    {
        let key = encode_url(alias_endpoint);
        let value = response.to_json();
        match self.bucket.put(&key, &value) {
            Ok(_) => Ok(()),
            Err(_) => Err(AddError::Store),
        }
    }

    /// Add a record captured from a file's contents under
    /// `alias_endpoint`: the contents become the record's body, its header
    /// map is empty.  Only the store itself can fail.
    pub fn new_route_from_file(&mut self, alias_endpoint: &String, contents: String) -> (r: Result<
        (),
        AddError,
    >)
        ensures
            r is Ok ==> final(self).contents() == old(self).contents().insert(
                encoded_key(alias_endpoint@),
                serialize_record(contents@, Seq::<(Seq<char>, Seq<char>)>::empty()),
            ),
            r is Err ==> r == Err::<(), AddError>(AddError::Store),
    {
        let response = capture_file(contents);
        self.add_response(alias_endpoint, &response)
    }

    /// The decoded endpoint paths of the persisted records: exactly what
    /// [`listed_paths`] gives for the scanned elements — one path per
    /// element whose scan step succeeded and whose key decodes, in scan
    /// order; every other record is skipped on its own.  Every listed path
    /// is the decoding of some stored key.
    pub fn list_items(&self) -> (r: Vec<String>)
        ensures
            forall|t: int|
                0 <= t < r@.len() ==> listed_path(self.contents(), (#[trigger] r@[t])@),
    {
        let items = self.bucket.items();
        let r = decoded_paths(&items);
        proof {
            assert(paths_view(r@) == listed_paths(items@));
            assert forall|t: int|
                0 <= t < r@.len() implies listed_path(self.contents(), (#[trigger] r@[t])@) by {
                assert(paths_view(r@)[t] == r@[t]@);
                lemma_listed_paths_member(items@, t);
                let i = choose|i: int|
                    0 <= i < items@.len() && ((#[trigger] items@[i]) matches Ok(kv) && key_ok(
                        kv.0@,
                    ) && listed_paths(items@)[t] == key_path(kv.0@));
                match items@[i] {
                    Ok(kv) => {
                        assert(self.contents().contains_pair(kv.0@, kv.1@));
                    },
                    Err(_) => {},
                }
            }
        }
        r
    }

    /// Materialize the route table from all persisted records.  Every
    /// record whose scan step succeeded, whose key decodes and whose value
    /// parses contributes its route; each corrupt record is skipped on its
    /// own, and the build never fails.  Every routed path maps to the
    /// parsed record of a stored pair whose key decodes to it.
    pub fn get_routes_from_bucket(&self) -> (r: RouteTable)
        ensures
            r.wf(),
            forall|p: Seq<char>|
                #[trigger] r.as_map().contains_key(p) ==> exists|k: Seq<char>|
                    {
                        &&& self.contents().contains_key(k)
                        &&& key_ok(k)
                        &&& key_path(k) == p
                        &&& {
                            let v = self.contents()[k];
                            crate::record::parse_record(v) matches Some(q) && r.as_map()[p] == (
                                q.0,
                                crate::headers::entries_map(q.1),
                            )
                        }
                    },
    {
        let items = self.bucket.items();
        let table = materialize(items);
        proof {
            let its = items@;
            assert forall|p: Seq<char>| #[trigger]
                table.as_map().contains_key(p) implies exists|k: Seq<char>|
                {
                    &&& self.contents().contains_key(k)
                    &&& key_ok(k)
                    &&& key_path(k) == p
                    &&& {
                        let v = self.contents()[k];
                        crate::record::parse_record(v) matches Some(q) && table.as_map()[p] == (
                            q.0,
                            crate::headers::entries_map(q.1),
                        )
                    }
                } by {
                lemma_table_map_value(its, p);
                let i = choose|i: int|
                    0 <= i < its.len() && valid_item(#[trigger] its[i]) && crate::routes::item_route(
                        its[i],
                    ).0 == p && table_map(its)[p] == crate::routes::item_route(its[i]).1;
                match its[i] {
                    Ok(kv) => {
                        assert(self.contents().contains_pair(kv.0@, kv.1@));
                        assert(self.contents()[kv.0@] == kv.1@);
                    },
                    Err(_) => {},
                }
            }
        }
        table
    }
}

} // verus!
