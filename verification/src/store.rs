//! The store itself: an exclusively-owned mapping from item name to
//! completion flag, mutated in place and read out as snapshots.

use vstd::prelude::*;
use crate::model::{
    valid_name, wf_entries, has_name, map_of, entry_views, spec_add, spec_complete,
    lemma_map_of_push, lemma_map_of_complete, lemma_map_of_domain,
};

verus! {

/// The errors the store reports. File and lock failures belong to the host,
/// which wraps them in its own error type.
#[derive(Clone, Copy, Debug, PartialEq, Eq, Structural)]
pub enum TodoError {
    /// The item name is empty.
    InvalidInput,
    /// The named item is not in the store.
    NotFound,
    /// The given text is not a well-formed persisted mapping.
    ParseError,
}

/// A mapping from item name to completion flag. Names are unique and
/// non-empty; enumeration keeps insertion order.
pub struct TodoStore {
    items: Vec<(String, bool)>,
}

impl TodoStore {
    /// The entries the store holds, in enumeration order.
    pub closed spec fn entries(self) -> Seq<(Seq<char>, bool)> {
        entry_views(self.items@)
    }

    /// Every name usable, no name repeated.
    pub open spec fn wf(self) -> bool {
        wf_entries(self.entries())
    }

    /// The mapping the store denotes.
    pub open spec fn as_map(self) -> Map<Seq<char>, bool> {
        map_of(self.entries())
    }

    /// A store starts empty.
    pub fn new() -> (s: Self)
        ensures
            s.wf(),
            s.entries() == Seq::<(Seq<char>, bool)>::empty(),
            s.as_map() == Map::<Seq<char>, bool>::empty(),
    {
        let s = TodoStore { items: Vec::new() };
        proof {
            assert(s.entries() =~= Seq::<(Seq<char>, bool)>::empty());
        }
        s
    }

    /// The index of the entry named `name`, if any.
    fn find(&self, name: &String) -> (r: Option<usize>)
        ensures
            match r {
                Some(i) => i < self.entries().len() && self.entries()[i as int].0 == name@,
                None => !has_name(self.entries(), name@),
            },
    {
        let mut i: usize = 0;
        while i < self.items.len()
            invariant
                i <= self.items.len(),
                forall|j: int| 0 <= j < i ==> self.entries()[j].0 != name@,
            decreases self.items.len() - i,
        {
            if self.items[i].0 == *name {
                return Some(i);
            }
            i += 1;
        }
        None
    }

    /// Inserts `name`, not yet completed, if it is absent; a second add of
    /// the same name changes nothing, not even the completion flag. Only the
    /// empty name is rejected.
    pub fn add(&mut self, name: String) -> (r: Result<(), TodoError>)
        requires
            old(self).wf(),
        ensures
            final(self).wf(),
            final(self).as_map() == spec_add(old(self).as_map(), name@),
            r is Ok <==> valid_name(name@),
            match r {
                Ok(()) => if has_name(old(self).entries(), name@) {
                    final(self).entries() == old(self).entries()
                } else {
                    final(self).entries() == old(self).entries().push((name@, false))
                },
                Err(e) => e == TodoError::InvalidInput
                    && final(self).entries() == old(self).entries(),
            },
    {
        if !check_name(&name) {
            return Err(TodoError::InvalidInput);
        }
        if self.find(&name).is_some() {
            proof {
                lemma_map_of_domain(self.entries(), name@);
            }
            return Ok(());
        }
        let ghost pre = self.entries();
        proof {
            lemma_map_of_domain(pre, name@);
        }
        self.items.push((name, false));
        proof {
            assert(self.entries() =~= pre.push((name@, false)));
            lemma_map_of_push(pre, (name@, false));
        }
        Ok(())
    }

    /// Marks the entry named `name` as completed; an absent name is reported
    /// as `NotFound` and the store is left as it was. Names, their order and
    /// the flags of all other entries are untouched.
    pub fn complete(&mut self, name: &String) -> (r: Result<(), TodoError>)
        requires
            old(self).wf(),
        ensures
            final(self).wf(),
            final(self).as_map() == spec_complete(old(self).as_map(), name@),
            r is Ok <==> has_name(old(self).entries(), name@),
            match r {
                Ok(()) => {
                    &&& final(self).entries().len() == old(self).entries().len()
                    &&& forall|i: int| 0 <= i < old(self).entries().len()
                        ==> (#[trigger] final(self).entries()[i]) == (
                            old(self).entries()[i].0,
                            if old(self).entries()[i].0 == name@ {
                                true
                            } else {
                                old(self).entries()[i].1
                            },
                        )
                },
                Err(e) => e == TodoError::NotFound
                    && final(self).entries() == old(self).entries(),
            },
    {
        match self.find(name) {
            Some(i) => {
                let ghost pre = self.entries();
                self.items[i].1 = true;
                proof {
                    assert(self.entries() =~= pre.update(i as int, (pre[i as int].0, true)));
                    assert(forall|k: int| 0 <= k < pre.len()
                        ==> (#[trigger] self.entries()[k]).0 == pre[k].0);
                    lemma_map_of_domain(pre, name@);
                    assert(forall|k: int| 0 <= k < pre.len() ==> (#[trigger] self.entries()[k])
                        == (
                        pre[k].0,
                        if pre[k].0 == name@ {
                            true
                        } else {
                            pre[k].1
                        },
                    ));
                    lemma_map_of_complete(pre, self.entries(), name@);
                }
                Ok(())
            },
            None => {
                proof {
                    lemma_map_of_domain(self.entries(), name@);
                }
                Err(TodoError::NotFound)
            },
        }
    }

    /// The persisted text for the current entries: the canonical JSON
    /// object. The host writes this text to the file it chooses.
    pub fn save_json(&self) -> (r: String)
        ensures
            r@ == crate::json::spec_serialize(self.entries()),
    {
        let chars = crate::json::serialize_entries(&self.items);
        crate::json::chars_to_string(chars)
    }

    /// Installs the state a persisted text denotes. `None` stands for a file
    /// that does not exist yet: the store becomes empty and that is no
    /// error. A text that is not a well-formed persisted mapping is
    /// reported as `ParseError` and leaves the store as it was. On success
    /// the store holds exactly the loaded entries, and the same entries are
    /// returned.
    pub fn load(&mut self, content: Option<&str>) -> (r: Result<Vec<(String, bool)>, TodoError>)
        requires
            old(self).wf(),
        ensures
            final(self).wf(),
            match content {
                None => r is Ok && final(self).entries() == Seq::<(Seq<char>, bool)>::empty(),
                Some(text) => match crate::json::spec_parse(text@) {
                    Some(es) => r is Ok && final(self).entries() == es,
                    None => r == Err::<Vec<(String, bool)>, TodoError>(TodoError::ParseError)
                        && final(self).entries() == old(self).entries(),
                },
            },
            match r {
                Ok(v) => entry_views(v@) == final(self).entries(),
                Err(_) => true,
            },
    {
        match content {
            None => {
                self.items = Vec::new();
                proof {
                    assert(self.entries() =~= Seq::<(Seq<char>, bool)>::empty());
                }
                Ok(Vec::new())
            },
            Some(text) => match crate::json::parse_text(text) {
                Some(v) => {
                    self.items = v;
                    let out = self.list();
                    Ok(out)
                },
                None => Err(TodoError::ParseError),
            },
        }
    }

    /// A snapshot of all entries, in enumeration order.
    pub fn list(&self) -> (r: Vec<(String, bool)>)
        ensures
            entry_views(r@) == self.entries(),
    {
        let mut r: Vec<(String, bool)> = Vec::new();
        let mut i: usize = 0;
        while i < self.items.len()
            invariant
                i <= self.items.len(),
                entry_views(r@) =~= self.entries().take(i as int),
            decreases self.items.len() - i,
        {
            let ghost pre = r@;
            r.push((self.items[i].0.clone(), self.items[i].1));
            proof {
                assert(r@ == pre.push((self.items[i as int].0, self.items[i as int].1)));
                assert(entry_views(pre).len() == pre.len());
                assert(entry_views(r@) =~= self.entries().take(i as int + 1));
            }
            i += 1;
        }
        proof {
            assert(entry_views(r@) =~= self.entries());
        }
        r
    }
}

/// What a listing shows is exactly what the mapping holds: every listed
/// entry carries the completion flag the mapping gives its name, and every
/// mapped name is listed.
pub proof fn lemma_list_shows_map(s: TodoStore)
    requires
        s.wf(),
    ensures
        forall|i: int| 0 <= i < s.entries().len() ==> s.as_map().dom().contains(
            (#[trigger] s.entries()[i]).0,
        ) && s.as_map()[s.entries()[i].0] == s.entries()[i].1,
        forall|n: Seq<char>| s.as_map().dom().contains(n) ==> has_name(s.entries(), n),
{
    assert forall|i: int| 0 <= i < s.entries().len() implies s.as_map().dom().contains(
        (#[trigger] s.entries()[i]).0,
    ) && s.as_map()[s.entries()[i].0] == s.entries()[i].1 by {
        crate::model::lemma_map_of_index(s.entries(), i);
    }
    assert forall|n: Seq<char>| s.as_map().dom().contains(n) implies has_name(
        s.entries(),
        n,
    ) by {
        lemma_map_of_domain(s.entries(), n);
    }
}

/// Whether `name` is usable as an item name: any non-empty string is.
pub fn check_name(name: &String) -> (b: bool)
    ensures
        b == valid_name(name@),
{
    !name.as_str().is_empty()
}

} // verus!
