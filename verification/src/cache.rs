//! The on-disk cache's bookkeeping: keys are sanitized into file names
//! under the cache directory. The library plans paths and remembers the
//! keys written during the run; reading and writing the files is the
//! caller's work.

use vstd::prelude::*;

use crate::common::{sanitize_package_name, sanitized};
use crate::strutil::string_eq;

verus! {

/// The file a key is kept under.
pub open spec fn cache_key_path(cache_dir: Seq<char>, key: Seq<char>) -> Seq<char> {
    cache_dir + "/"@ + sanitized(key)
}

/// One cache namespace: a directory, and the keys set during this run.
pub struct Cache {
    pub cache_dir: String,
    pub keys: Vec<String>,
}

impl Cache {
    /// A cache over the given directory, with nothing set yet.
    pub fn new(cache_dir: String) -> (r: Cache)
        ensures
            r.cache_dir@ == cache_dir@,
            r.keys@.len() == 0,
    {
        Cache { cache_dir, keys: Vec::new() }
    }

    /// The file the key is kept under; `/` in a key becomes `_`, so that a
    /// scoped package name is a single path component.
    pub fn key_path(&self, key: &str) -> (r: String)
        ensures
            r@ == cache_key_path(self.cache_dir@, key@),
    {
        let mut p = self.cache_dir.clone();
        p.append("/");
        let file_name = sanitize_package_name(key);
        p.append(file_name.as_str());
        proof {
            assert(p@ =~= cache_key_path(self.cache_dir@, key@));
        }
        p
    }

    /// The path of an entry set during this run, if the key was set.
    pub fn get(&self, key: &str) -> (r: Option<String>)
        ensures
            match r {
                Some(p) => self.keys.deep_view().contains(sanitized(key@)) && p@
                    == cache_key_path(self.cache_dir@, key@),
                None => !self.keys.deep_view().contains(sanitized(key@)),
            },
    {
        let wanted = sanitize_package_name(key);
        let mut i: usize = 0;
        while i < self.keys.len()
            invariant
                i <= self.keys.len(),
                wanted@ == sanitized(key@),
                forall|j: int| 0 <= j < i ==> self.keys.deep_view()[j] != sanitized(key@),
            decreases self.keys.len() - i,
        {
            if string_eq(&self.keys[i], &wanted) {
                proof {
                    assert(self.keys.deep_view()[i as int] == sanitized(key@));
                }
                return Some(self.key_path(key));
            }
            proof {
                assert(self.keys.deep_view()[i as int] == self.keys@[i as int]@);
            }
            i = i + 1;
        }
        None
    }

    /// Records that the key's entry now exists and answers its path.
    pub fn set(&mut self, key: &str) -> (r: String)
        ensures
            final(self).cache_dir == old(self).cache_dir,
            final(self).keys.deep_view() == old(self).keys.deep_view().push(sanitized(key@)),
            r@ == cache_key_path(old(self).cache_dir@, key@),
    {
        let file_name = sanitize_package_name(key);
        let ghost old_keys = self.keys.deep_view();
        self.keys.push(file_name);
        proof {
            assert(self.keys.deep_view() =~= old_keys.push(sanitized(key@)));
        }
        self.key_path(key)
    }
}

} // verus!
