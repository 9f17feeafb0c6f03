//! Interval tags.
//!
//! Tags are identified in most places by a small numerical identifier, which
//! can be used to look up the text name of the tag for display and
//! serialization purposes. Tag IDs are assigned in order of tag creation,
//! starting from 0: an ID is the index of its name in the registry.

use vstd::prelude::*;

use crate::interval::TagId;

verus! {

/// Tag record errors.
#[derive(Debug, Clone, Copy, PartialEq, Eq, Structural, Hash)]
pub enum TagsError {
    /// Attempted to create a tag that already exists.
    TagExists,
}

impl TagsError {
    /// A human-readable description of this error.
    pub fn message(&self) -> (r: String)
        ensures
            r@ == "attempt to insert tag that already exists"@,
    {
        "attempt to insert tag that already exists".to_owned()
    }
}

/// Tag names are pairwise distinct.
pub open spec fn names_unique(names: Seq<Seq<char>>) -> bool {
    forall|i: int, j: int| 0 <= i < j < names.len() ==> names[i] !== names[j]
}

/// The ID of `name` in the registry `names`: the index at which it occurs,
/// if it occurs at all. Meaningful when names are unique.
pub open spec fn spec_tag_id(names: Seq<Seq<char>>, name: Seq<char>) -> Option<TagId> {
    if names.contains(name) {
        Some(names.index_of(name) as TagId)
    } else {
        None
    }
}

/// A record of the interval tags in use by a timelog.
///
/// The registry is the sequence of tag names; the position of a name is its
/// tag ID.
#[derive(Debug, Clone, PartialEq, Eq)]
pub struct Tags {
    tag_names: Vec<String>,
}

impl View for Tags {
    type V = Seq<Seq<char>>;

    closed spec fn view(&self) -> Seq<Seq<char>> {
        self.tag_names.deep_view()
    }
}

impl Tags {
    /// Names are unique, and there are few enough of them that every ID fits
    /// its integer type.
    pub open spec fn wf(&self) -> bool {
        &&& names_unique(self@)
        &&& self@.len() <= u32::MAX
    }

    /// Create a new, empty tags record.
    pub fn new() -> (r: Tags)
        ensures
            r@ =~= Seq::<Seq<char>>::empty(),
            r.wf(),
    {
        Tags { tag_names: Vec::new() }
    }

    /// The number of registered tags.
    pub fn len(&self) -> (r: usize)
        ensures
            r == self@.len(),
    {
        self.tag_names.len()
    }

    /// The registered tag names, in ID order.
    pub fn names(&self) -> (r: &Vec<String>)
        ensures
            r.deep_view() == self@,
    {
        &self.tag_names
    }

    /// Get the tag ID of the tag with the given name, if it exists.
    pub fn get_id(&self, tag_name: &str) -> (r: Option<TagId>)
        requires
            self.wf(),
        ensures
            r == spec_tag_id(self@, tag_name@),
    {
        let needle = tag_name.to_owned();
        let n = self.tag_names.len();
        let mut i: usize = 0;
        while i < n
            invariant
                n == self@.len(),
                i <= n,
                self.wf(),
                needle@ == tag_name@,
                forall|k: int| 0 <= k < i ==> self@[k] !== tag_name@,
            decreases n - i,
        {
            if self.tag_names[i] == needle {
                proof {
                    assert(self@[i as int] == tag_name@);
                    assert(self@.contains(tag_name@));
                    let w = self@.index_of(tag_name@);
                    assert(self@[w] == tag_name@);
                    assert(w == i as int);
                }
                return Some(i as u32);
            }
            i += 1;
        }
        proof {
            assert(forall|k: int| 0 <= k < self@.len() ==> self@[k] !== tag_name@);
            assert(!self@.contains(tag_name@));
        }
        None
    }

    /// Get the name associated with the given tag ID, if it exists.
    pub fn get_name(&self, tag_id: TagId) -> (r: Option<&str>)
        ensures
            match r {
                Some(s) => tag_id < self@.len() && s@ == self@[tag_id as int],
                None => tag_id >= self@.len(),
            },
    {
        if (tag_id as usize) < self.tag_names.len() {
            let s: &String = &self.tag_names[tag_id as usize];
            proof {
                assert(self@[tag_id as int] == self.tag_names@[tag_id as int]@);
            }
            Some(s.as_str())
        } else {
            None
        }
    }

    /// Insert a new tag with the given name.
    ///
    /// Returns an error if a tag by the same name already exists; otherwise
    /// the name receives the next sequential ID.
    pub fn insert(&mut self, tag_name: &str) -> (r: Result<TagId, TagsError>)
        requires
            old(self).wf(),
            old(self)@.len() < u32::MAX,
        ensures
            final(self).wf(),
            match r {
                Err(e) => e == TagsError::TagExists && old(self)@.contains(tag_name@)
                    && final(self)@ == old(self)@,
                Ok(id) => !old(self)@.contains(tag_name@) && id == old(self)@.len()
                    && final(self)@ =~= old(self)@.push(tag_name@),
            },
    {
        match self.get_id(tag_name) {
            Some(_) => Err(TagsError::TagExists),
            None => {
                let id = self.tag_names.len() as u32;
                self.tag_names.push(tag_name.to_owned());
                proof {
                    assert(self@ =~= old(self)@.push(tag_name@));
                    assert forall|i: int, j: int| 0 <= i < j < self@.len() implies self@[i]
                        !== self@[j] by {
                        if j == self@.len() - 1 {
                            assert(old(self)@.contains(old(self)@[i])) by {
                                assert(old(self)@[i] == self@[i]);
                            }
                        }
                    }
                }
                Ok(id)
            },
        }
    }

    /// Insert the tag of the given name if it does not yet exist, and return
    /// its tag ID.
    pub fn get_id_or_insert(&mut self, tag_name: &str) -> (r: TagId)
        requires
            old(self).wf(),
            old(self)@.len() < u32::MAX,
        ensures
            final(self).wf(),
            if old(self)@.contains(tag_name@) {
                final(self)@ == old(self)@ && Some(r) == spec_tag_id(old(self)@, tag_name@)
            } else {
                final(self)@ =~= old(self)@.push(tag_name@) && r == old(self)@.len()
            },
    {
        match self.get_id(tag_name) {
            Some(id) => id,
            None => {
                match self.insert(tag_name) {
                    Ok(id) => id,
                    Err(_) => {
                        proof {
                            assert(false);
                        }
                        0
                    },
                }
            },
        }
    }

    /// Rebuild a registry from a plain list of names, as read from a
    /// persisted snapshot (the index of a name in the list is its ID).
    ///
    /// Returns an error if the list holds the same name twice.
    pub fn from_names(names: Vec<String>) -> (r: Result<Tags, TagsError>)
        requires
            names@.len() <= u32::MAX,
        ensures
            match r {
                Ok(t) => t@ == names.deep_view() && t.wf(),
                Err(e) => e == TagsError::TagExists && exists|i: int, j: int|
                    0 <= i < j < names.deep_view().len() && names.deep_view()[i]
                        == names.deep_view()[j],
            },
    {
        let ghost dv = names.deep_view();
        let n = names.len();
        let mut i: usize = 0;
        while i < n
            invariant
                n == names@.len(),
                dv == names.deep_view(),
                i <= n,
                forall|a: int, b: int| 0 <= a < b < i ==> dv[a] !== dv[b],
            decreases n - i,
        {
            let mut j: usize = 0;
            while j < i
                invariant
                    n == names@.len(),
                    dv == names.deep_view(),
                    j <= i < n,
                    forall|b: int| 0 <= b < j ==> dv[b] !== dv[i as int],
                decreases i - j,
            {
                if names[j] == names[i] {
                    proof {
                        assert(dv[j as int] == dv[i as int]);
                    }
                    return Err(TagsError::TagExists);
                }
                j += 1;
            }
            i += 1;
        }
        Ok(Tags { tag_names: names })
    }
}

} // verus!
