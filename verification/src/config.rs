//! The SDK registry: an ordered list of named SDK entries with unique names.

use vstd::prelude::*;

use crate::text::str_eq;

verus! {

/// One registered SDK: a short name and the installation root path.
#[derive(Debug)]
pub struct SDKConfig {
    pub name: String,
    pub path: String,
}

impl View for SDKConfig {
    type V = (Seq<char>, Seq<char>);

    open spec fn view(&self) -> (Seq<char>, Seq<char>) {
        (self.name@, self.path@)
    }
}

/// The registry: an ordered sequence of SDK entries, insertion order kept.
#[derive(Debug)]
pub struct JavaverConfig {
    pub sdk: Vec<SDKConfig>,
}

/// The mathematical image of a list of entries: (name, path) pairs.
pub open spec fn entry_views(s: Seq<SDKConfig>) -> Seq<(Seq<char>, Seq<char>)> {
    s.map_values(|e: SDKConfig| e@)
}

impl View for JavaverConfig {
    type V = Seq<(Seq<char>, Seq<char>)>;

    open spec fn view(&self) -> Seq<(Seq<char>, Seq<char>)> {
        entry_views(self.sdk@)
    }
}

/// Whether some entry of the registry carries exactly this name.
pub open spec fn spec_contains_name(r: Seq<(Seq<char>, Seq<char>)>, name: Seq<char>) -> bool {
    exists|i: int| 0 <= i < r.len() && r[i].0 == name
}

/// No two entries of the registry share a name.
pub open spec fn unique_names(r: Seq<(Seq<char>, Seq<char>)>) -> bool {
    forall|i: int, j: int| 0 <= i < j < r.len() ==> r[i].0 != r[j].0
}

impl JavaverConfig {
    /// The registry invariant: names are pairwise distinct.
    pub open spec fn wf(&self) -> bool {
        unique_names(self@)
    }

    pub fn new() -> (r: Self)
        ensures
            r@ == Seq::<(Seq<char>, Seq<char>)>::empty(),
            r.wf(),
    {
        let r = Self { sdk: Vec::new() };
        proof {
            assert(r@ =~= Seq::<(Seq<char>, Seq<char>)>::empty());
        }
        r
    }

    /// Exact-match membership test on entry names (case-sensitive).
    pub fn contains_name(&self, name: &str) -> (r: bool)
        ensures
            r == spec_contains_name(self@, name@),
    {
        let n = self.sdk.len();
        let mut i: usize = 0;
        while i < n
            invariant
                n == self.sdk.len(),
                i <= n,
                forall|k: int| 0 <= k < i ==> self@[k].0 != name@,
            decreases n - i,
        {
            if str_eq(self.sdk[i].name.as_str(), name) {
                proof {
                    assert(self@[i as int].0 == name@);
                }
                return true;
            }
            i += 1;
        }
        false
    }
}

/// The error kinds of the library. `Io` and `Permission` are produced by the
/// surrounding glue when persistence or the PATH write fails; the registry
/// and switch logic itself produces the first four.
#[derive(Clone, Copy, Debug, PartialEq, Eq, Structural)]
pub enum JavaverError {
    DuplicateName,
    UnknownSdk,
    InvalidSdkPath,
    Deserialize,
    Io,
    Permission,
}

impl JavaverError {
    pub open spec fn spec_message(&self) -> Seq<char> {
        match self {
            JavaverError::DuplicateName => "the name is already in use"@,
            JavaverError::UnknownSdk => "there is no SDK under that name"@,
            JavaverError::InvalidSdkPath => "the path is not a JDK installation"@,
            JavaverError::Deserialize => "the stored registry file is malformed"@,
            JavaverError::Io => "the registry file could not be written"@,
            JavaverError::Permission => "writing the PATH variable was refused"@,
        }
    }

    /// A short human-readable description of the error.
    pub fn message(&self) -> (r: String)
        ensures
            r@ == self.spec_message(),
    {
        match self {
            JavaverError::DuplicateName => "the name is already in use".to_owned(),
            JavaverError::UnknownSdk => "there is no SDK under that name".to_owned(),
            JavaverError::InvalidSdkPath => "the path is not a JDK installation".to_owned(),
            JavaverError::Deserialize => "the stored registry file is malformed".to_owned(),
            JavaverError::Io => "the registry file could not be written".to_owned(),
            JavaverError::Permission => "writing the PATH variable was refused".to_owned(),
        }
    }
}

impl JavaverConfig {
    /// Appends a new entry, provided its path passed validation and its name
    /// is not taken. The validator itself examines the file system and runs
    /// in the surrounding glue; its verdict comes in as `path_valid`. A
    /// rejected add leaves the registry exactly as it was.
    pub fn add(&mut self, entry: SDKConfig, path_valid: bool) -> (r: Result<(), JavaverError>)
        ensures
            !path_valid ==> r == Err::<(), JavaverError>(JavaverError::InvalidSdkPath)
                && final(self)@ == old(self)@,
            path_valid && spec_contains_name(old(self)@, entry@.0) ==> r == Err::<(),
                JavaverError,
            >(JavaverError::DuplicateName) && final(self)@ == old(self)@,
            path_valid && !spec_contains_name(old(self)@, entry@.0) ==> r == Ok::<(),
                JavaverError,
            >(()) && final(self)@ == old(self)@.push(entry@),
            old(self).wf() ==> final(self).wf(),
    {
        if !path_valid {
            return Err(JavaverError::InvalidSdkPath);
        }
        if self.contains_name(entry.name.as_str()) {
            return Err(JavaverError::DuplicateName);
        }
        let ghost prev = self@;
        let ghost e = entry@;
        self.sdk.push(entry);
        proof {
            assert(self@ =~= prev.push(e));
            if old(self).wf() {
                assert forall|i: int, j: int| 0 <= i < j < self@.len() implies self@[i].0
                    != self@[j].0 by {
                    if j < prev.len() {
                        assert(prev[i].0 != prev[j].0);
                    } else {
                        assert(self@[j] == e);
                        assert(!spec_contains_name(prev, e.0));
                        assert(prev[i].0 != e.0);
                    }
                }
            }
        }
        Ok(())
    }

    /// Removes the single entry carrying this name; fails, changing nothing,
    /// when no entry has it.
    #[verifier::loop_isolation(false)]
    pub fn remove(&mut self, name: &str) -> (r: Result<(), JavaverError>)
        ensures
            !spec_contains_name(old(self)@, name@) ==> r == Err::<(), JavaverError>(
                JavaverError::UnknownSdk,
            ) && final(self)@ == old(self)@,
            spec_contains_name(old(self)@, name@) ==> r == Ok::<(), JavaverError>(()) && exists|
                i: int,
            |
                0 <= i < old(self)@.len() && old(self)@[i].0 == name@ && (forall|j: int|
                    0 <= j < i ==> old(self)@[j].0 != name@) && final(self)@ == old(self)@.remove(
                    i,
                ),
            old(self).wf() ==> final(self).wf(),
    {
        let ghost prev = self@;
        let n = self.sdk.len();
        let mut i: usize = 0;
        while i < n
            invariant
                n == self.sdk.len(),
                i <= n,
                self@ == prev,
                forall|k: int| 0 <= k < i ==> prev[k].0 != name@,
            decreases n - i,
        {
            if str_eq(self.sdk[i].name.as_str(), name) {
                proof {
                    assert(prev[i as int].0 == name@);
                }
                self.sdk.remove(i);
                proof {
                    assert(self@ =~= prev.remove(i as int));
                    lemma_unique_names_remove(prev, i as int);
                    let gi = i as int;
                    assert(0 <= gi < prev.len() && prev[gi].0 == name@ && (forall|j: int|
                        0 <= j < gi ==> prev[j].0 != name@) && self@ == prev.remove(gi));
                }
                return Ok(());
            }
            i += 1;
        }
        Err(JavaverError::UnknownSdk)
    }
}

/// Removing one entry keeps the remaining names pairwise distinct.
proof fn lemma_unique_names_remove(r: Seq<(Seq<char>, Seq<char>)>, k: int)
    requires
        0 <= k < r.len(),
    ensures
        unique_names(r) ==> unique_names(r.remove(k)),
{
    if unique_names(r) {
        let s = r.remove(k);
        assert forall|i: int, j: int| 0 <= i < j < s.len() implies s[i].0 != s[j].0 by {
            let i0 = if i < k {
                i
            } else {
                i + 1
            };
            let j0 = if j < k {
                j
            } else {
                j + 1
            };
            assert(s[i] == r[i0]);
            assert(s[j] == r[j0]);
            assert(r[i0].0 != r[j0].0);
        }
    }
}

impl SDKConfig {
    pub fn new(name: &String, path: &String) -> (r: Self)
        ensures
            r@ == (name@, path@),
    {
        Self { name: name.clone(), path: path.clone() }
    }
}

} // verus!
