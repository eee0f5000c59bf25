//! Tag-to-identifier registries: a bidirectional `Tag` to dense-id lookup
//! plus the registered prototypes, filled during a content reload.
//!
//! The two-way lookup itself is `bimap::BiHashMap`; the contracts of the
//! trusted wrappers below state what its documented operations do to the
//! map's contents, and everything built on them is verified against that.
use vstd::prelude::*;
use crate::registry::Id;
use crate::tag::Tag;

verus! {

#[verifier::external_type_specification]
#[verifier::external_body]
#[verifier::reject_recursive_types(L)]
#[verifier::reject_recursive_types(R)]
#[verifier::reject_recursive_types(LS)]
#[verifier::reject_recursive_types(RS)]
pub struct ExBiHashMap<L, R, LS, RS>(bimap::BiHashMap<L, R, LS, RS>);

/// A bidirectional map from tags to dense identifiers.
pub type TagBimap = bimap::BiHashMap<Tag, u32>;

/// What a tag-to-id bimap holds, as a mathematical map. A bimap value
/// determines its contents, so the wrappers below may speak of them.
pub uninterp spec fn bimap_entries(m: TagBimap) -> Map<Tag, u32>;

/// Relies on bimap::BiHashMap::new: the new bimap is empty.
#[verifier::external_body]
fn bimap_new() -> (r: TagBimap)
    ensures
        (bimap_entries(r) =~= Map::<Tag, u32>::empty()),
{
    bimap::BiHashMap::new()
}

/// Relies on bimap::BiHashMap::insert_no_overwrite: the pair goes in only
/// when neither the left nor the right value is present, and the result says
/// whether it did; on refusal the bimap is unchanged.
#[verifier::external_body]
fn bimap_insert(m: &mut TagBimap, tag: Tag, id: u32) -> (r: bool)
    ensures
        r ==> {
            &&& bimap_entries(*final(m)) == bimap_entries(*old(m)).insert(tag, id)
            &&& !bimap_entries(*old(m)).contains_key(tag)
            &&& forall|t: Tag|
                bimap_entries(*old(m)).contains_key(t) ==> bimap_entries(*old(m))[t] != id
        },
        !r ==> {
            &&& *final(m) == *old(m)
            &&& bimap_entries(*old(m)).contains_key(tag) || exists|t: Tag|
                bimap_entries(*old(m)).contains_key(t) && bimap_entries(*old(m))[t] == id
        },
{
    m.insert_no_overwrite(tag, id).is_ok()
}

/// Relies on bimap::BiHashMap::get_by_left: returns the right value paired
/// with the given left value, if the pair exists.
#[verifier::external_body]
fn bimap_get_by_left(m: &TagBimap, tag: &Tag) -> (r: Option<u32>)
    ensures
        r matches Some(id) ==> bimap_entries(*m).contains_key(*tag) && bimap_entries(*m)[*tag]
            == id,
        r is None ==> !bimap_entries(*m).contains_key(*tag),
{
    m.get_by_left(tag).copied()
}

/// Relies on bimap::BiHashMap::get_by_right: returns the left value paired
/// with the given right value, if the pair exists.
#[verifier::external_body]
fn bimap_get_by_right(m: &TagBimap, id: u32) -> (r: Option<Tag>)
    ensures
        r matches Some(t) ==> bimap_entries(*m).contains_key(t) && bimap_entries(*m)[t] == id,
        r is None ==> forall|t: Tag|
            bimap_entries(*m).contains_key(t) ==> bimap_entries(*m)[t] != id,
{
    m.get_by_right(&id).cloned()
}

/// Some tag is assigned the identifier `id` in `m`.
pub open spec fn has_tag_for(m: Map<Tag, u32>, id: u32) -> bool {
    exists|t: Tag| m.contains_key(t) && #[trigger] m[t] == id
}

/// Why a prototype could not be registered.
#[derive(Clone, Copy, Debug, PartialEq, Eq, Structural)]
pub enum RegisterError {
    /// The tag is already registered: a content-authoring bug.
    DuplicateTag,
    /// The identifier space is exhausted.
    Full,
}

/// A registry under construction: prototypes registered by tag, each
/// assigned the next dense identifier.
pub struct Registry<P> {
    name: String,
    tag_to_id: TagBimap,
    entries: Vec<P>,
    current_id: u32,
}

impl<P> Registry<P> {
    /// The registered prototypes, in identifier order.
    pub closed spec fn prototypes(&self) -> Seq<P> {
        self.entries@
    }

    /// The tag-to-identifier assignment.
    pub closed spec fn tag_map(&self) -> Map<Tag, u32> {
        bimap_entries(self.tag_to_id)
    }

    /// Tags map one-to-one onto the identifiers `[0, n)` of the registered
    /// prototypes.
    pub closed spec fn wf(&self) -> bool {
        &&& self.current_id == self.entries@.len()
        &&& forall|t: Tag|
            self.tag_map().contains_key(t) ==> 0 <= #[trigger] self.tag_map()[t]
                < self.entries@.len()
        &&& forall|t1: Tag, t2: Tag|
            self.tag_map().contains_key(t1) && self.tag_map().contains_key(t2) && t1 != t2
                ==> #[trigger] self.tag_map()[t1] != #[trigger] self.tag_map()[t2]
        &&& forall|id: u32|
            0 <= id < self.entries@.len() ==> #[trigger] has_tag_for(self.tag_map(), id)
    }

    pub fn new(name: String) -> (r: Registry<P>)
        ensures
            r.wf(),
            r.prototypes() == Seq::<P>::empty(),
            r.tag_map() == Map::<Tag, u32>::empty(),
    {
        Registry { name, tag_to_id: bimap_new(), entries: Vec::new(), current_id: 0 }
    }

    /// The registry's display name.
    pub fn name(&self) -> (r: &String) {
        &self.name
    }

    /// Registers a prototype under a fresh dense identifier. Fails exactly
    /// when the tag was registered before (a content-authoring bug) or the
    /// identifier space is exhausted.
    pub fn register(&mut self, tag: Tag, prototype: P) -> (r: Result<Id<P>, RegisterError>)
        requires
            old(self).wf(),
        ensures
            final(self).wf(),
            r matches Ok(id) ==> {
                &&& !old(self).tag_map().contains_key(tag)
                &&& id.idx() == old(self).prototypes().len()
                &&& final(self).prototypes() == old(self).prototypes().push(prototype)
                &&& final(self).tag_map() == old(self).tag_map().insert(tag, id.idx() as u32)
            },
            r matches Err(e) && e == RegisterError::DuplicateTag ==> old(self).tag_map()
                .contains_key(tag) && *final(self) == *old(self),
            r matches Err(e) && e == RegisterError::Full ==> old(self).prototypes().len()
                == u32::MAX && *final(self) == *old(self),
            r is Err <==> old(self).tag_map().contains_key(tag) || old(self).prototypes().len()
                == u32::MAX,
    {
        if self.entries.len() >= u32::MAX as usize {
            if bimap_get_by_left(&self.tag_to_id, &tag).is_some() {
                return Err(RegisterError::DuplicateTag);
            }
            return Err(RegisterError::Full);
        }
        let id = self.current_id;
        if !bimap_insert(&mut self.tag_to_id, tag, id) {
            proof {
                if !old(self).tag_map().contains_key(tag) {
                    let t = choose|t: Tag|
                        old(self).tag_map().contains_key(t) && #[trigger] old(self).tag_map()[t]
                            == id;
                    assert(old(self).tag_map()[t] < old(self).entries@.len());
                }
            }
            return Err(RegisterError::DuplicateTag);
        }
        self.entries.push(prototype);
        self.current_id = self.current_id + 1;
        proof {
            let m = self.tag_map();
            assert forall|t1: Tag, t2: Tag|
                m.contains_key(t1) && m.contains_key(t2) && t1 != t2 implies #[trigger] m[t1]
                != #[trigger] m[t2] by {
                if t1 != tag && t2 != tag {
                    assert(old(self).tag_map()[t1] != old(self).tag_map()[t2]);
                }
            }
            assert forall|t: Tag| m.contains_key(t) implies 0 <= #[trigger] m[t]
                < self.entries@.len() by {
                if t != tag {
                    assert(old(self).tag_map()[t] < old(self).entries@.len());
                }
            }
            assert forall|id2: u32| 0 <= id2 < self.entries@.len() implies #[trigger] has_tag_for(
                m,
                id2,
            ) by {
                if id2 == id {
                    assert(m.contains_key(tag) && m[tag] == id2);
                } else {
                    assert(has_tag_for(old(self).tag_map(), id2));
                    let t = choose|t: Tag|
                        old(self).tag_map().contains_key(t) && #[trigger] old(self).tag_map()[t]
                            == id2;
                    assert(m.contains_key(t) && m[t] == id2);
                }
            }
        }
        Ok(Id::new(id))
    }

    /// The registered prototypes in ascending identifier order.
    pub fn entries(&self) -> (r: &Vec<P>)
        ensures
            r@ == self.prototypes(),
    {
        &self.entries
    }

    /// The identifier a tag was registered under, if any.
    pub fn get_id(&self, tag: &Tag) -> (r: Option<Id<P>>)
        requires
            self.wf(),
        ensures
            r matches Some(id) ==> self.tag_map().contains_key(*tag) && self.tag_map()[*tag]
                == id.idx() && 0 <= id.idx() < self.prototypes().len(),
            r is None ==> !self.tag_map().contains_key(*tag),
    {
        match bimap_get_by_left(&self.tag_to_id, tag) {
            Some(id) => Some(Id::new(id)),
            None => None,
        }
    }

    /// The tag an identifier was registered under, if any.
    pub fn get_tag(&self, id: &Id<P>) -> (r: Option<Tag>)
        requires
            self.wf(),
        ensures
            r matches Some(t) ==> self.tag_map().contains_key(t) && self.tag_map()[t] == id.idx(),
            r is None ==> !(0 <= id.idx() < self.prototypes().len()),
    {
        let key = id.index();
        if key > u32::MAX as usize {
            proof {
                assert(self.prototypes().len() <= u32::MAX as int + 1);
            }
            return None;
        }
        let r = bimap_get_by_right(&self.tag_to_id, key as u32);
        proof {
            if r is None && 0 <= id.idx() < self.prototypes().len() {
                assert(has_tag_for(self.tag_map(), id.idx() as u32));
                let t = choose|t: Tag|
                    self.tag_map().contains_key(t) && #[trigger] self.tag_map()[t] == id.idx()
                        as u32;
                assert(self.tag_map()[t] != id.idx() as u32);
            }
        }
        r
    }

    /// The prototype behind an identifier, if it is in range.
    pub fn get_entry(&self, id: &Id<P>) -> (r: Option<&P>)
        ensures
            r matches Some(p) ==> 0 <= id.idx() < self.prototypes().len() && *p
                == self.prototypes()[id.idx()],
            r is None ==> !(0 <= id.idx() < self.prototypes().len()),
    {
        let key = id.index();
        if key < self.entries.len() {
            Some(&self.entries[key])
        } else {
            None
        }
    }
}

} // verus!
