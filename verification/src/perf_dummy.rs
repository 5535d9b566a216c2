//! A small library of ownership patterns that the analysis is measured on:
//! a data container with metadata, a configuration, and a slow Fibonacci.

use crate::models::{find_entry, first_index, keys_of, lemma_first_index_of};
use crate::text::{decimal, push_decimal};
use vstd::prelude::*;

verus! {

/// The metadata entries as (key, value) texts.
pub open spec fn meta_view(s: Seq<(String, String)>) -> Seq<(Seq<char>, Seq<char>)> {
    s.map_values(|e: (String, String)| (e.0@, e.1@))
}

/// The value of the first entry of `m` with key `key`, if any.
pub open spec fn lookup(m: Seq<(Seq<char>, Seq<char>)>, key: Seq<char>) -> Option<Seq<char>> {
    match first_index(keys_of(m), key) {
        Some(i) => Some(m[i].1),
        None => None,
    }
}

/// An identified block of bytes with text metadata.
#[derive(Clone, Debug)]
pub struct DataContainer {
    pub id: String,
    pub data: Vec<u8>,
    pub metadata: Vec<(String, String)>,
}

impl DataContainer {
    pub fn new(id: String) -> (r: Self)
        ensures
            r.id == id,
            r.data@.len() == 0,
            r.metadata@.len() == 0,
    {
        Self { id, data: Vec::new(), metadata: Vec::new() }
    }

    /// Appends `data` to the container's bytes.
    pub fn add_data(&mut self, data: Vec<u8>) -> (r: Result<(), String>)
        ensures
            r is Ok,
            final(self).data@ == old(self).data@ + data@,
            final(self).id == old(self).id,
            final(self).metadata@ == old(self).metadata@,
    {
        let mut data = data;
        self.data.append(&mut data);
        Ok(())
    }

    /// The container's bytes.
    pub fn get_data(&self) -> (r: &[u8])
        ensures
            r@ == self.data@,
    {
        self.data.as_slice()
    }

    /// The value stored under `key`, which must be present.
    pub fn get_metadata(&self, key: &str) -> (r: String)
        requires
            lookup(meta_view(self.metadata@), key@) is Some,
        ensures
            Some(r@) == lookup(meta_view(self.metadata@), key@),
    {
        let k = key.to_owned();
        let i = find_entry(&self.metadata, &k);
        proof {
            lemma_first_index_of(meta_view(self.metadata@), key@, match i {
                Some(i) => Some(i as int),
                None => None,
            });
        }
        match i {
            Some(i) => self.metadata[i].1.clone(),
            None => {
                proof {
                    assert(false);
                }
                String::new()
            },
        }
    }

    /// The value stored under `key`, where there is one.
    pub fn get_metadata_safe(&self, key: &str) -> (r: Option<&String>)
        ensures
            r is Some == lookup(meta_view(self.metadata@), key@) is Some,
            r matches Some(v) ==> Some(v@) == lookup(meta_view(self.metadata@), key@),
    {
        let k = key.to_owned();
        let i = find_entry(&self.metadata, &k);
        proof {
            lemma_first_index_of(meta_view(self.metadata@), key@, match i {
                Some(i) => Some(i as int),
                None => None,
            });
        }
        match i {
            Some(i) => Some(&self.metadata[i].1),
            None => None,
        }
    }

    /// Stores `value` under `key`, replacing what was there; other keys keep
    /// their values.
    pub fn insert_metadata(&mut self, key: String, value: String)
        ensures
            lookup(meta_view(final(self).metadata@), key@) == Some(value@),
            forall|k: Seq<char>|
                k != key@ ==> #[trigger] lookup(meta_view(final(self).metadata@), k) == lookup(
                    meta_view(old(self).metadata@),
                    k,
                ),
            final(self).id == old(self).id,
            final(self).data@ == old(self).data@,
    {
        let ghost m0 = self.metadata@;
        let i = find_entry(&self.metadata, &key);
        let ghost kv = key@;
        let ghost vv = value@;
        match i {
            Some(i) => {
                self.metadata.set(i, (key, value));
            },
            None => {
                self.metadata.push((key, value));
            },
        }
        proof {
            let m1 = self.metadata@;
            let v0 = meta_view(m0);
            let v1 = meta_view(m1);
            match i {
                Some(i) => {
                    lemma_first_index_of(v1, kv, Some(i as int));
                    assert forall|k: Seq<char>| k != kv implies #[trigger] lookup(v1, k) == lookup(
                        v0,
                        k,
                    ) by {
                        let f0 = first_index(keys_of(v0), k);
                        crate::models::lemma_first_index(keys_of(v0), k);
                        match f0 {
                            Some(j) => {
                                assert(v0[j].0 == keys_of(v0)[j]);
                                assert forall|t: int| 0 <= t < j implies (#[trigger] v1[t]).0 != k by {
                                    assert(v0[t].0 == keys_of(v0)[t]);
                                }
                                lemma_first_index_of(v1, k, Some(j));
                            },
                            None => {
                                assert forall|t: int| 0 <= t < v1.len() implies (#[trigger] v1[t]).0 != k by {
                                    assert(v0[t].0 == keys_of(v0)[t]);
                                }
                                lemma_first_index_of(v1, k, None);
                            },
                        }
                    }
                },
                None => {
                    let n = m0.len() as int;
                    assert forall|t: int| 0 <= t < n implies (#[trigger] v1[t]).0 != kv by {
                        assert(v1[t] == v0[t]);
                    }
                    lemma_first_index_of(v1, kv, Some(n));
                    assert forall|k: Seq<char>| k != kv implies #[trigger] lookup(v1, k) == lookup(
                        v0,
                        k,
                    ) by {
                        let f0 = first_index(keys_of(v0), k);
                        crate::models::lemma_first_index(keys_of(v0), k);
                        match f0 {
                            Some(j) => {
                                assert(v0[j].0 == keys_of(v0)[j]);
                                assert forall|t: int| 0 <= t < j implies (#[trigger] v1[t]).0 != k by {
                                    assert(v0[t].0 == keys_of(v0)[t]);
                                }
                                lemma_first_index_of(v1, k, Some(j));
                            },
                            None => {
                                assert forall|t: int| 0 <= t < v1.len() implies (#[trigger] v1[t]).0 != k by {
                                    if t < n {
                                        assert(v0[t].0 == keys_of(v0)[t]);
                                    }
                                }
                                lemma_first_index_of(v1, k, None);
                            },
                        }
                    }
                },
            }
        }
    }
}

/// A processor that shares work among a number of workers.
#[derive(Clone, Copy, Debug)]
pub struct DataProcessor {
    pub workers: usize,
}

impl DataProcessor {
    pub fn new(workers: usize) -> (r: Self)
        ensures
            r.workers == workers,
    {
        Self { workers }
    }

    /// The line that processing `item` gives.
    pub fn processed_label(item: &DataContainer) -> (r: String)
        ensures
            r@ == "Processed: "@ + item.id@,
    {
        let mut s = "Processed: ".to_owned();
        s.append(item.id.as_str());
        s
    }
}

/// The application's configuration.
#[derive(Clone, Debug)]
pub struct AppConfig {
    pub database_url: String,
    pub api_endpoints: Vec<String>,
    pub timeout_seconds: u64,
    pub retry_attempts: usize,
}

impl AppConfig {
    /// The first endpoint, which must exist.
    pub fn get_first_endpoint(&self) -> (r: String)
        requires
            self.api_endpoints@.len() > 0,
        ensures
            r@ == self.api_endpoints@[0]@,
    {
        self.api_endpoints[0].clone()
    }

    /// The first endpoint, where there is one.
    pub fn get_first_endpoint_safe(&self) -> (r: Option<&str>)
        ensures
            r is Some == (self.api_endpoints@.len() > 0),
            r matches Some(v) ==> v@ == self.api_endpoints@[0]@,
    {
        if self.api_endpoints.len() > 0 {
            Some(self.api_endpoints[0].as_str())
        } else {
            None
        }
    }
}

pub open spec fn fib(n: nat) -> nat
    decreases n,
{
    if n == 0 {
        0
    } else if n == 1 {
        1
    } else {
        fib((n - 1) as nat) + fib((n - 2) as nat)
    }
}

proof fn lemma_fib_monotone(i: nat, j: nat)
    requires
        i <= j,
    ensures
        fib(i) <= fib(j),
    decreases j - i,
{
    if i < j {
        lemma_fib_monotone(i, (j - 1) as nat);
        if j >= 2 {
        }
    }
}

/// The `n`th Fibonacci number, computed by the naive recursion.
pub fn compute_fibonacci(n: u64) -> (r: u64)
    requires
        fib(n as nat) <= u64::MAX,
    ensures
        r == fib(n as nat),
    decreases n,
{
    if n == 0 {
        0
    } else if n == 1 {
        1
    } else {
        proof {
            lemma_fib_monotone((n - 1) as nat, n as nat);
            lemma_fib_monotone((n - 2) as nat, n as nat);
        }
        compute_fibonacci(n - 1) + compute_fibonacci(n - 2)
    }
}

/// `size` containers named `item_0`, `item_1`, ..., each holding 1024
/// copies of its index (as a byte) and the metadata `created_at`.
pub fn generate_large_dataset(size: usize, created_at: &str) -> (r: Vec<DataContainer>)
    requires
        size <= u64::MAX,
    ensures
        r@.len() == size,
        forall|i: int|
            0 <= i < size ==> {
                &&& (#[trigger] r@[i]).id@ == "item_"@ + decimal(i as nat)
                &&& r@[i].data@ == Seq::new(1024, |k: int| i as u8)
                &&& lookup(meta_view(r@[i].metadata@), "created_at"@) == Some(created_at@)
            },
{
    let mut r: Vec<DataContainer> = Vec::new();
    let mut i: usize = 0;
    while i < size
        invariant
            i <= size,
            size <= u64::MAX,
            r@.len() == i,
            forall|t: int|
                0 <= t < i ==> {
                    &&& (#[trigger] r@[t]).id@ == "item_"@ + decimal(t as nat)
                    &&& r@[t].data@ == Seq::new(1024, |k: int| t as u8)
                    &&& lookup(meta_view(r@[t].metadata@), "created_at"@) == Some(created_at@)
                },
        decreases size - i,
    {
        let mut id = "item_".to_owned();
        push_decimal(&mut id, i as u64);
        let mut container = DataContainer::new(id);
        let b: u8 = (i % 256) as u8;
        let mut data: Vec<u8> = Vec::new();
        let mut k: usize = 0;
        while k < 1024
            invariant
                k <= 1024,
                data@ == Seq::new(k as nat, |t: int| b),
            decreases 1024 - k,
        {
            data.push(b);
            k = k + 1;
            proof {
                assert(data@ =~= Seq::new(k as nat, |t: int| b));
            }
        }
        let _ = container.add_data(data);
        proof {
            assert((i as int) as u8 == b) by (bit_vector)
                requires
                    b == (i % 256) as u8,
            ;
            assert(container.data@ =~= Seq::new(1024, |t: int| (i as int) as u8));
            assert(meta_view(container.metadata@) =~= Seq::<(Seq<char>, Seq<char>)>::empty());
        }
        container.insert_metadata("created_at".to_owned(), created_at.to_owned());
        r.push(container);
        i = i + 1;
    }
    r
}

} // verus!
