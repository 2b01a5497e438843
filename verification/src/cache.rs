//! The pipeline cache: compiled pipelines, keyed by kernel descriptor.
//!
//! A pipeline is compiled on the first request for its descriptor and served
//! from the cache on every later one. Nothing is ever evicted or replaced.
//! The cache is changed through an exclusive reference only, so a lookup
//! that inserts can never interleave with another one; callers on several
//! threads share a cache behind a lock.

use crate::error::KernelError;
use crate::kernel::{DescriptorKey, KernelDescriptor};
use vstd::prelude::*;

verus! {

/// A cache of compiled pipelines of type `P`.
pub struct PipelineCache<P> {
    keys: Vec<KernelDescriptor>,
    pipelines: Vec<P>,
}

/// The position of a key among the keys of a cache, if it is there.
spec fn position_of(keys: Seq<KernelDescriptor>, key: DescriptorKey) -> int {
    choose|i: int| 0 <= i < keys.len() && keys[i]@ == key
}

/// Whether a key is among the keys of a cache.
spec fn has_key(keys: Seq<KernelDescriptor>, key: DescriptorKey) -> bool {
    exists|i: int| 0 <= i < keys.len() && keys[i]@ == key
}

/// The set of the keys of a cache.
spec fn key_set(keys: Seq<KernelDescriptor>) -> Set<DescriptorKey> {
    Set::new(|key: DescriptorKey| has_key(keys, key))
}

/// Keys that are pairwise distinct form a set of as many elements.
proof fn lemma_key_set(keys: Seq<KernelDescriptor>)
    requires
        forall|i: int, j: int| 0 <= i < j < keys.len() ==> keys[i]@ != keys[j]@,
    ensures
        key_set(keys).finite(),
        key_set(keys).len() == keys.len(),
    decreases keys.len(),
{
    if keys.len() == 0 {
        assert(key_set(keys) =~= Set::empty());
    } else {
        let front = keys.drop_last();
        lemma_key_set(front);
        let last = keys.last()@;
        assert forall|key: DescriptorKey|
            key_set(keys).contains(key) == key_set(front).insert(last).contains(key) by {
            if has_key(keys, key) {
                let i = choose|i: int| 0 <= i < keys.len() && keys[i]@ == key;
                if i < keys.len() - 1 {
                    assert(front[i]@ == key);
                }
            }
            if has_key(front, key) {
                let i = choose|i: int| 0 <= i < front.len() && front[i]@ == key;
                assert(keys[i]@ == key);
            }
            if key == last {
                assert(keys[keys.len() - 1]@ == key);
            }
        }
        assert(key_set(keys) =~= key_set(front).insert(last));
        if has_key(front, last) {
            let i = choose|i: int| 0 <= i < front.len() && front[i]@ == last;
            assert(keys[i]@ == keys[keys.len() - 1]@);
        }
    }
}

impl<P> PipelineCache<P> {
    /// Every key has its pipeline, and no key occurs twice.
    #[verifier::type_invariant]
    closed spec fn wf(&self) -> bool {
        &&& self.keys@.len() == self.pipelines@.len()
        &&& forall|i: int, j: int|
            0 <= i < j < self.keys@.len() ==> self.keys@[i]@ != self.keys@[j]@
    }

    /// The cache as a map from descriptors to pipelines.
    pub closed spec fn view(&self) -> Map<DescriptorKey, P> {
        Map::new(
            |key: DescriptorKey| has_key(self.keys@, key),
            |key: DescriptorKey| self.pipelines@[position_of(self.keys@, key)],
        )
    }

    /// An empty cache.
    pub fn new() -> (cache: Self)
        ensures
            cache@ == Map::<DescriptorKey, P>::empty(),
    {
        let cache = PipelineCache { keys: Vec::new(), pipelines: Vec::new() };
        proof {
            assert(cache@ =~= Map::<DescriptorKey, P>::empty());
        }
        cache
    }

    /// The number of cached pipelines.
    pub fn len(&self) -> (n: usize)
        ensures
            n == self@.dom().len(),
            self@.dom().finite(),
    {
        proof {
            use_type_invariant(self);
            self.lemma_domain_size();
        }
        self.keys.len()
    }

    /// The keys of a cache are as many as the entries of its map.
    proof fn lemma_domain_size(&self)
        requires
            self.wf(),
        ensures
            self@.dom().finite(),
            self@.dom().len() == self.keys@.len(),
    {
        lemma_key_set(self.keys@);
        assert(self@.dom() =~= key_set(self.keys@));
    }

    /// The slot that holds the pipeline of a descriptor, if it is cached.
    fn find(&self, descriptor: &KernelDescriptor) -> (slot: Option<usize>)
        ensures
            match slot {
                Some(i) => i < self.keys@.len() && self.keys@[i as int]@ == descriptor@,
                None => !has_key(self.keys@, descriptor@),
            },
    {
        let mut i: usize = 0;
        while i < self.keys.len()
            invariant
                i <= self.keys@.len(),
                forall|h: int| 0 <= h < i ==> self.keys@[h]@ != descriptor@,
            decreases self.keys@.len() - i,
        {
            if self.keys[i].same_as(descriptor) {
                return Some(i);
            }
            i += 1;
        }
        None
    }

    /// The cached pipeline of a descriptor, if there is one.
    pub fn get(&self, descriptor: &KernelDescriptor) -> (found: Option<&P>)
        ensures
            match found {
                Some(p) => self@.dom().contains(descriptor@) && *p == self@[descriptor@],
                None => !self@.dom().contains(descriptor@),
            },
    {
        proof {
            use_type_invariant(self);
        }
        match self.find(descriptor) {
            Some(i) => {
                proof {
                    let at = position_of(self.keys@, descriptor@);
                    assert(at == i);
                }
                Some(&self.pipelines[i])
            },
            None => None,
        }
    }

    /// The pipeline of a descriptor: the cached one if there is one, else
    /// the one that `compile` builds, which is then cached.
    ///
    /// A cached pipeline is returned as it is, and the cache is unchanged.
    /// For a descriptor that is not cached, whatever `compile` returns
    /// decides: a pipeline is stored under the descriptor and returned, an
    /// error is handed on and leaves the cache as it was.
    pub fn get_or_compile<F: FnOnce(&KernelDescriptor) -> Result<P, KernelError>>(
        &mut self,
        descriptor: KernelDescriptor,
        compile: F,
    ) -> (result: Result<&P, KernelError>)
        requires
            !old(self)@.dom().contains(descriptor@) ==> call_requires(compile, (&descriptor,)),
        ensures
            match result {
                Ok(p) => {
                    &&& final(self)@.dom().contains(descriptor@)
                    &&& *p == final(self)@[descriptor@]
                    &&& if old(self)@.dom().contains(descriptor@) {
                        final(self)@ == old(self)@
                    } else {
                        &&& call_ensures(compile, (&descriptor,), Ok(*p))
                        &&& final(self)@ == old(self)@.insert(descriptor@, *p)
                    }
                },
                Err(e) => {
                    &&& !old(self)@.dom().contains(descriptor@)
                    &&& call_ensures(compile, (&descriptor,), Err(e))
                    &&& final(self)@ == old(self)@
                },
            },
    {
        proof {
            use_type_invariant(&*self);
        }
        match self.find(&descriptor) {
            Some(i) => {
                proof {
                    assert(position_of(self.keys@, descriptor@) == i);
                }
                Ok(&self.pipelines[i])
            },
            None => {
                match compile(&descriptor) {
                    Ok(pipeline) => {
                        let ghost before = *self;
                        let ghost key = descriptor@;
                        let mut grown = PipelineCache { keys: Vec::new(), pipelines: Vec::new() };
                        core::mem::swap(self, &mut grown);
                        let PipelineCache { mut keys, mut pipelines } = grown;
                        keys.push(descriptor);
                        pipelines.push(pipeline);
                        let last = pipelines.len() - 1;
                        proof {
                            assert forall|i: int, j: int| 0 <= i < j < keys@.len() implies keys@[i]@
                                != keys@[j]@ by {
                                if j == last {
                                    assert(before.keys@[i]@ != key);
                                }
                            }
                        }
                        *self = PipelineCache { keys, pipelines };
                        proof {
                            assert(self.keys@[last as int]@ == key);
                            assert(position_of(self.keys@, key) == last);
                            assert forall|k: DescriptorKey|
                                has_key(self.keys@, k) == (k == key || has_key(before.keys@, k)) by {
                                if has_key(self.keys@, k) {
                                    let i = choose|i: int|
                                        0 <= i < self.keys@.len() && self.keys@[i]@ == k;
                                    if i < last {
                                        assert(before.keys@[i]@ == k);
                                    }
                                }
                                if has_key(before.keys@, k) {
                                    let i = choose|i: int|
                                        0 <= i < before.keys@.len() && before.keys@[i]@ == k;
                                    assert(self.keys@[i]@ == k);
                                }
                            }
                            assert forall|k: DescriptorKey|
                                has_key(before.keys@, k) implies self.pipelines@[position_of(
                                self.keys@,
                                k,
                            )] == before.pipelines@[position_of(before.keys@, k)] by {
                                let i = position_of(before.keys@, k);
                                assert(self.keys@[i]@ == k);
                                assert(position_of(self.keys@, k) == i);
                            }
                            assert(self@ =~= before@.insert(key, self.pipelines@[last as int]));
                        }
                        Ok(&self.pipelines[last])
                    },
                    Err(e) => Err(e),
                }
            },
        }
    }
}

} // verus!
