//! The content API: the `Carrier` of baked registries, swapped wholesale by
//! `reload` once per content-reload cycle and read-only in between.
use vstd::prelude::*;
use crate::chunk::{BlockDesc, BlockPrototype};
use crate::lookup::{RegisterError, Registry};
use crate::prototype::{EntityDesc, EntityPrototype};
use crate::registry::{Id, Storage};
use crate::tag::Tag;

verus! {

/// A read-only handle to the currently active registries. Replaced, never
/// mutated in place, so a consumer that captured one keeps a consistent
/// snapshot across a concurrent reload.
pub struct Carrier {
    pub blocks: Storage<BlockDesc, BlockDesc>,
    pub entities: Storage<EntityDesc, EntityDesc>,
}

impl Clone for Carrier {
    fn clone(&self) -> (r: Self)
        ensures
            r.blocks@ == self.blocks@,
            r.entities@ == self.entities@,
    {
        Carrier { blocks: self.blocks.duplicate(), entities: self.entities.duplicate() }
    }
}

/// Why a content reload was aborted.
#[derive(Clone, Copy, Debug, PartialEq, Eq, Structural)]
pub enum ReloadError {
    /// Two block prototypes share a tag.
    DuplicateBlockTag,
    /// Two entity prototypes share a tag.
    DuplicateEntityTag,
}

/// The tags of an authored prototype list are pairwise distinct.
pub open spec fn distinct_tags<P>(list: Seq<(Tag, P)>) -> bool {
    forall|i: int, j: int| 0 <= i < j < list.len() ==> (#[trigger] list[i]).0 != (#[trigger] list[j]).0
}

/// Builds both registries from the authored prototype lists and swaps the
/// carrier to the new content.
///
/// Registration assigns dense identifiers in list order, so on success the
/// descriptor at identifier `j` is the baked form of the `j`-th prototype.
/// A duplicated tag is a content-authoring bug: the reload is aborted and
/// the old carrier stays in place.
pub fn reload(
    carrier: &mut Option<Carrier>,
    blocks: Vec<(Tag, BlockPrototype)>,
    entities: Vec<(Tag, EntityPrototype)>,
) -> (r: Result<(), ReloadError>)
    requires
        blocks@.len() < u32::MAX,
        entities@.len() < u32::MAX,
    ensures
        r is Ok <==> distinct_tags(blocks@) && distinct_tags(entities@),
        r matches Err(e) && e == ReloadError::DuplicateBlockTag <==> !distinct_tags(blocks@),
        r matches Err(e) && e == ReloadError::DuplicateEntityTag <==> distinct_tags(blocks@)
            && !distinct_tags(entities@),
        r is Err ==> *final(carrier) == *old(carrier),
        r is Ok ==> (*final(carrier) matches Some(c) && {
            &&& c.blocks@.len() == blocks@.len()
            &&& forall|j: int|
                0 <= j < blocks@.len() ==> (#[trigger] c.blocks@[j]).collision == blocks@[j].1.collision
            &&& c.entities@.len() == entities@.len()
            &&& forall|j: int|
                0 <= j < entities@.len() ==> {
                    let d = #[trigger] c.entities@[j];
                    &&& d.id as int == j
                    &&& d.hitbox == entities@[j].1.hitbox
                    &&& (entities@[j].1.velocity matches Some(v) ==> d.velocity
                        == Some(crate::prototype::VelocityComp { dx: v.dx, dy: v.dy }))
                    &&& (entities@[j].1.velocity is None ==> d.velocity is None)
                }
        }),
{
    let block_protos = match register_all("block".to_owned(), blocks) {
        Ok(reg) => reg,
        Err(_) => {
            return Err(ReloadError::DuplicateBlockTag);
        },
    };
    let entity_protos = match register_all("entity".to_owned(), entities) {
        Ok(reg) => reg,
        Err(_) => {
            return Err(ReloadError::DuplicateEntityTag);
        },
    };

    let n = block_protos.entries().len();
    let mut block_pairs: Vec<(Id<BlockDesc>, BlockDesc)> = Vec::new();
    let mut j: usize = 0;
    while j < n
        invariant
            n == block_protos.prototypes().len() < u32::MAX,
            block_pairs@.len() == j <= n,
            forall|m: int|
                0 <= m < j ==> (#[trigger] block_pairs@[m]).0.idx() == m && block_pairs@[m].1.collision
                    == block_protos.prototypes()[m].collision,
        decreases n - j,
    {
        let proto = block_protos.entries()[j];
        block_pairs.push((Id::new(j as u32), proto.bake()));
        j = j + 1;
    }
    proof {
        lemma_identity_ids_contiguous(block_pairs@);
    }
    let blocks_storage = match Storage::from_pairs(block_pairs) {
        Ok(s) => s,
        Err(_) => {
            proof {
                assert(false);
            }
            return Err(ReloadError::DuplicateBlockTag);
        },
    };

    let n = entity_protos.entries().len();
    let mut entity_pairs: Vec<(Id<EntityDesc>, EntityDesc)> = Vec::new();
    let mut j: usize = 0;
    while j < n
        invariant
            n == entity_protos.prototypes().len() < u32::MAX,
            entity_pairs@.len() == j <= n,
            forall|m: int|
                0 <= m < j ==> {
                    let d = (#[trigger] entity_pairs@[m]).1;
                    let p = entity_protos.prototypes()[m];
                    &&& entity_pairs@[m].0.idx() == m
                    &&& d.id as int == m
                    &&& d.hitbox == p.hitbox
                    &&& (p.velocity matches Some(v) ==> d.velocity
                        == Some(crate::prototype::VelocityComp { dx: v.dx, dy: v.dy }))
                    &&& (p.velocity is None ==> d.velocity is None)
                },
        decreases n - j,
    {
        let proto = entity_protos.entries()[j];
        let id = Id::new(j as u32);
        entity_pairs.push((id, proto.bake(id)));
        j = j + 1;
    }
    proof {
        lemma_identity_ids_contiguous(entity_pairs@);
    }
    let entities_storage = match Storage::from_pairs(entity_pairs) {
        Ok(s) => s,
        Err(_) => {
            proof {
                assert(false);
            }
            return Err(ReloadError::DuplicateEntityTag);
        },
    };

    proof {
        assert forall|j: int| 0 <= j < blocks@.len() implies (#[trigger] blocks_storage@[j]).collision
            == blocks@[j].1.collision by {
            assert(block_pairs@[j].0.idx() == j);
            assert(blocks_storage@[block_pairs@[j].0.idx()] == block_pairs@[j].1);
            assert(block_protos.prototypes()[j] == blocks@[j].1);
        }
        assert forall|j: int| 0 <= j < entities@.len() implies {
            let d = #[trigger] entities_storage@[j];
            &&& d.id as int == j
            &&& d.hitbox == entities@[j].1.hitbox
            &&& (entities@[j].1.velocity matches Some(v) ==> d.velocity == Some(
                crate::prototype::VelocityComp { dx: v.dx, dy: v.dy },
            ))
            &&& (entities@[j].1.velocity is None ==> d.velocity is None)
        } by {
            assert(entity_pairs@[j].0.idx() == j);
            assert(entities_storage@[entity_pairs@[j].0.idx()] == entity_pairs@[j].1);
            assert(entity_protos.prototypes()[j] == entities@[j].1);
        }
    }
    *carrier = Some(Carrier { blocks: blocks_storage, entities: entities_storage });
    Ok(())
}

/// A pair list whose identifiers are `0, 1, ...` in order is contiguous.
proof fn lemma_identity_ids_contiguous<V, I>(pairs: Seq<(Id<I>, V)>)
    requires
        forall|m: int| 0 <= m < pairs.len() ==> (#[trigger] pairs[m]).0.idx() == m,
    ensures
        crate::registry::contiguous(crate::registry::ids_of(pairs), pairs.len() as int),
{
    let ids = crate::registry::ids_of(pairs);
    assert forall|k: int| 0 <= k < pairs.len() implies ids.contains(k) by {
        assert(ids[k] == k);
    }
}

/// Registers every prototype of the list in order; fails exactly when a tag
/// repeats.
fn register_all<P>(name: String, list: Vec<(Tag, P)>) -> (r: Result<Registry<P>, RegisterError>)
    requires
        list@.len() < u32::MAX,
    ensures
        r is Ok <==> distinct_tags(list@),
        r matches Ok(reg) ==> {
            &&& reg.wf()
            &&& reg.prototypes() == list@.map_values(|p: (Tag, P)| p.1)
        },
        r matches Err(e) ==> e == RegisterError::DuplicateTag,
{
    let ghost all = list@;
    let n = list.len();
    let mut reg = Registry::<P>::new(name);
    let mut list = list;
    let mut j: usize = 0;
    while j < n
        invariant
            n == all.len() < u32::MAX,
            list@ == all.subrange(j as int, n as int),
            0 <= j <= n,
            reg.wf(),
            reg.prototypes() == all.subrange(0, j as int).map_values(|p: (Tag, P)| p.1),
            forall|t: Tag|
                reg.tag_map().contains_key(t) <==> exists|i: int|
                    0 <= i < j && (#[trigger] all[i]).0 == t,
            distinct_tags(all.subrange(0, j as int)),
        decreases n - j,
    {
        let ghost prefix = all.subrange(0, j as int);
        let (tag, proto) = list.remove(0);
        proof {
            assert((tag, proto) == all[j as int]);
            assert(all.subrange(j as int, n as int).remove(0) =~= all.subrange(
                j + 1 as int,
                n as int,
            ));
        }
        let ghost gtag = tag;
        let ghost pre_map = reg.tag_map();
        match reg.register(tag, proto) {
            Ok(_) => {
                proof {
                    assert(reg.prototypes() =~= all.subrange(0, j + 1 as int).map_values(
                        |p: (Tag, P)| p.1,
                    ));
                    assert forall|t: Tag| reg.tag_map().contains_key(t) implies exists|i: int|
                        0 <= i < j + 1 && (#[trigger] all[i]).0 == t by {
                        if t == gtag {
                            assert((all[j as int]).0 == t);
                        } else {
                            assert(pre_map.contains_key(t));
                            let i = choose|i: int| 0 <= i < j && (#[trigger] all[i]).0 == t;
                            assert((all[i]).0 == t);
                        }
                    }
                    assert forall|t: Tag|
                        (exists|i: int| 0 <= i < j + 1 && (#[trigger] all[i]).0 == t)
                        implies reg.tag_map().contains_key(t) by {
                        let i = choose|i: int| 0 <= i < j + 1 && (#[trigger] all[i]).0 == t;
                        if i < j {
                            assert(pre_map.contains_key(t));
                        } else {
                            assert(t == gtag);
                        }
                    }
                    assert(distinct_tags(all.subrange(0, j + 1 as int))) by {
                        assert forall|i0: int, j0: int|
                            0 <= i0 < j0 < j + 1 implies (#[trigger] all.subrange(
                            0,
                            j + 1 as int,
                        )[i0]).0 != (#[trigger] all.subrange(0, j + 1 as int)[j0]).0 by {
                            if j0 == j {
                                if (all[i0]).0 == gtag {
                                    assert(pre_map.contains_key(gtag));
                                }
                            } else {
                                assert(prefix[i0] == all[i0] && prefix[j0] == all[j0]);
                            }
                        }
                    }
                }
            },
            Err(e) => {
                proof {
                    assert(reg.tag_map().contains_key(gtag) || reg.prototypes().len() == u32::MAX);
                    assert(reg.prototypes().len() == j < u32::MAX);
                    let i = choose|i: int| 0 <= i < j && (#[trigger] all[i]).0 == gtag;
                    assert((all[i]).0 == (all[j as int]).0);
                    assert(!distinct_tags(all));
                }
                return Err(RegisterError::DuplicateTag);
            },
        }
        j = j + 1;
    }
    proof {
        assert(all.subrange(0, n as int) =~= all);
        assert(reg.prototypes() == all.map_values(|p: (Tag, P)| p.1));
    }
    Ok(reg)
}

} // verus!
