use vstd::prelude::*;
use crate::ast::{BoundDecl, BoundSetModel, DeclModel, Error, GenericParam};
use crate::codec::{
    bounded_params, bounded_str_list, dec_params, dec_preds, decode_params, decode_preds,
    enc_params, enc_str_list, encode_params, encode_preds, lemma_params_round_trip,
    lemma_preds_round_trip,
};

verus! {

/// Two entries of the batch share a name.
pub open spec fn has_dup_name(ds: Seq<DeclModel>) -> bool {
    exists|i: int, j: int| 0 <= i < j < ds.len() && ds[i].name == ds[j].name
}

pub open spec fn is_dup_name(ds: Seq<DeclModel>, n: Seq<u8>) -> bool {
    exists|i: int, j: int| 0 <= i < j < ds.len() && ds[i].name == ds[j].name && ds[j].name == n
}

/// The mapping a batch of entries registers: each name to its content.
pub open spec fn decls_map(ds: Seq<DeclModel>) -> Map<Seq<u8>, BoundSetModel>
    decreases ds.len(),
{
    if ds.len() == 0 {
        Map::empty()
    } else {
        decls_map(ds.drop_last()).insert(ds.last().name, ds.last().set)
    }
}

/// In a batch without duplicate names, the registered mapping holds exactly
/// the batch's names, each bound to that entry's content.
pub proof fn lemma_decls_map_props(ds: Seq<DeclModel>)
    requires
        !has_dup_name(ds),
    ensures
        forall|n: Seq<u8>| #[trigger] decls_map(ds).contains_key(n) <==> exists|i: int|
            0 <= i < ds.len() && ds[i].name == n,
        forall|i: int| 0 <= i < ds.len() ==> decls_map(ds).contains_key(#[trigger] ds[i].name)
            && decls_map(ds)[ds[i].name] == ds[i].set,
    decreases ds.len(),
{
    if ds.len() > 0 {
        let pre = ds.drop_last();
        assert(!has_dup_name(pre)) by {
            if has_dup_name(pre) {
                let (i, j) = choose|i: int, j: int|
                    0 <= i < j < pre.len() && pre[i].name == pre[j].name;
                assert(ds[i].name == ds[j].name);
            }
        }
        lemma_decls_map_props(pre);
        assert(forall|i: int| 0 <= i < pre.len() ==> pre[i] == #[trigger] ds[i]);
        assert(forall|i: int| 0 <= i < ds.len() - 1 ==> ds[i].name != ds.last().name);
        assert forall|n: Seq<u8>| #[trigger] decls_map(ds).contains_key(n) implies exists|i: int|
            0 <= i < ds.len() && ds[i].name == n by {
            if n == ds.last().name {
                assert(ds[ds.len() - 1].name == n);
            } else {
                assert(decls_map(pre).contains_key(n));
                let i = choose|i: int| 0 <= i < pre.len() && pre[i].name == n;
                assert(ds[i].name == n);
            }
        }
        assert forall|n: Seq<u8>| (exists|i: int| 0 <= i < ds.len() && ds[i].name == n) implies
            #[trigger] decls_map(ds).contains_key(n) by {
            let i = choose|i: int| 0 <= i < ds.len() && ds[i].name == n;
            if i < ds.len() - 1 {
                assert(pre[i].name == n);
                assert(decls_map(pre).contains_key(n));
            }
        }
        assert forall|i: int| 0 <= i < ds.len() implies decls_map(ds).contains_key(
            #[trigger] ds[i].name,
        ) && decls_map(ds)[ds[i].name] == ds[i].set by {
            if i < ds.len() - 1 {
                assert(decls_map(pre).contains_key(pre[i].name) && decls_map(pre)[pre[i].name]
                    == pre[i].set);
                assert(ds[i].name != ds.last().name);
            }
        }
    }
}

/// One stored bound set: the name, and the canonical serialized forms of the
/// entry's generic parameters and where-clause predicates. The ghost `model`
/// holds the structured value the two serializations encode.
pub struct StoredBound {
    pub name: Vec<u8>,
    pub generics_enc: Vec<u8>,
    pub where_enc: Vec<u8>,
    pub model: Ghost<BoundSetModel>,
}

/// True of a stored entry whose serialized forms really encode its model.
pub open spec fn stored_wf(e: StoredBound) -> bool {
    &&& e.generics_enc@ == enc_params(e.model@.params)
    &&& bounded_params(e.model@.params)
    &&& e.where_enc@ == enc_str_list(e.model@.preds)
    &&& bounded_str_list(e.model@.preds)
}

pub open spec fn entries_map(s: Seq<StoredBound>) -> Map<Seq<u8>, BoundSetModel>
    decreases s.len(),
{
    if s.len() == 0 {
        Map::empty()
    } else {
        entries_map(s.drop_last()).insert(s.last().name@, s.last().model@)
    }
}

pub proof fn lemma_entries_map_props(s: Seq<StoredBound>)
    requires
        forall|i: int, j: int| 0 <= i < j < s.len() ==> s[i].name@ != s[j].name@,
    ensures
        forall|n: Seq<u8>| #[trigger] entries_map(s).contains_key(n) <==> exists|i: int|
            0 <= i < s.len() && s[i].name@ == n,
        forall|i: int| 0 <= i < s.len() ==> entries_map(s).contains_key(#[trigger] s[i].name@)
            && entries_map(s)[s[i].name@] == s[i].model@,
    decreases s.len(),
{
    if s.len() > 0 {
        let pre = s.drop_last();
        lemma_entries_map_props(pre);
        assert(forall|i: int| 0 <= i < pre.len() ==> pre[i] == #[trigger] s[i]);
        assert(forall|i: int| 0 <= i < s.len() - 1 ==> s[i].name@ != s.last().name@);
        assert forall|n: Seq<u8>| #[trigger] entries_map(s).contains_key(n) implies exists|i: int|
            0 <= i < s.len() && s[i].name@ == n by {
            if n == s.last().name@ {
                assert(s[s.len() - 1].name@ == n);
            } else {
                assert(entries_map(pre).contains_key(n));
                let i = choose|i: int| 0 <= i < pre.len() && pre[i].name@ == n;
                assert(s[i].name@ == n);
            }
        }
        assert forall|n: Seq<u8>| (exists|i: int| 0 <= i < s.len() && s[i].name@ == n) implies
            #[trigger] entries_map(s).contains_key(n) by {
            let i = choose|i: int| 0 <= i < s.len() && s[i].name@ == n;
            if i < s.len() - 1 {
                assert(pre[i].name@ == n);
                assert(entries_map(pre).contains_key(n));
            }
        }
        assert forall|i: int| 0 <= i < s.len() implies entries_map(s).contains_key(
            #[trigger] s[i].name@,
        ) && entries_map(s)[s[i].name@] == s[i].model@ by {
            if i < s.len() - 1 {
                assert(entries_map(pre).contains_key(pre[i].name@) && entries_map(pre)[pre[i].name@]
                    == pre[i].model@);
                assert(s[i].name@ != s.last().name@);
            }
        }
    }
}

/// The write-once table of registered bound sets, carried explicitly through
/// the pipeline: populated by at most one successful `register`, read-only
/// thereafter.
pub struct Registry {
    registered: bool,
    entries: Vec<StoredBound>,
}

impl View for Registry {
    type V = Map<Seq<u8>, BoundSetModel>;

    closed spec fn view(&self) -> Map<Seq<u8>, BoundSetModel> {
        entries_map(self.entries@)
    }
}

impl Registry {
    /// Whether the one permitted registration has happened.
    pub closed spec fn is_registered(&self) -> bool {
        self.registered
    }

    /// The registry's internal invariant: before registration it is empty;
    /// stored names are pairwise distinct; every stored serialization
    /// round-trips to its model.
    pub closed spec fn wf(&self) -> bool {
        &&& (!self.registered ==> self.entries@.len() == 0)
        &&& forall|i: int, j: int| 0 <= i < j < self.entries@.len()
            ==> self.entries@[i].name@ != self.entries@[j].name@
        &&& forall|i: int| 0 <= i < self.entries@.len() ==> stored_wf(
            #[trigger] self.entries@[i],
        )
    }

    /// Whether the one permitted registration has happened.
    pub fn registered_flag(&self) -> (r: bool)
        ensures
            r == self.is_registered(),
    {
        self.registered
    }

    /// A fresh, empty, unregistered registry.
    pub fn new() -> (r: Registry)
        ensures
            r.wf(),
            !r.is_registered(),
            r@ == Map::<Seq<u8>, BoundSetModel>::empty(),
    {
        Registry { registered: false, entries: Vec::new() }
    }

    /// Registers a batch of parsed entries. Fails with `AlreadyRegistered` on
    /// any call after the first, and with `DuplicateName` when two entries of
    /// the batch share a name; on success the registry holds exactly the
    /// batch's names, each bound to that entry's serialized content.
    pub fn register(&mut self, entries: Vec<BoundDecl>) -> (r: Result<(), Error>)
        requires
            old(self).wf(),
        ensures
            final(self).wf(),
            old(self).is_registered() ==> (r matches Err(e) && e == Error::AlreadyRegistered
                && *final(self) == *old(self)),
            !old(self).is_registered() && has_dup_name(entries.deep_view()) ==> (r matches Err(
                e,
            ) && e matches Error::DuplicateName { name } && is_dup_name(
                entries.deep_view(),
                name@,
            ) && *final(self) == *old(self)),
            !old(self).is_registered() && !has_dup_name(entries.deep_view()) ==> (r matches Ok(
                _,
            ) && final(self).is_registered() && final(self)@ == decls_map(entries.deep_view())),
    {
        proof {
            assert(entries.deep_view().len() == entries@.len());
            assert(forall|i: int| 0 <= i < entries@.len() ==> #[trigger] entries.deep_view()[i]
                == entries@[i]@);
        }
        if self.registered {
            return Err(Error::AlreadyRegistered);
        }
        let ghost ds = entries.deep_view();
        // Reject a batch in which two entries share a name.
        let mut j: usize = 0;
        while j < entries.len()
            invariant
                0 <= j <= entries@.len(),
                ds == entries.deep_view(),
                ds.len() == entries@.len(),
                *self == *old(self),
                !self.is_registered(),
                self.wf(),
                forall|i: int| 0 <= i < entries@.len() ==> #[trigger] ds[i] == entries@[i]@,
                forall|a: int, b: int| 0 <= a < b < j ==> ds[a].name != ds[b].name,
            decreases entries@.len() - j,
        {
            let mut i: usize = 0;
            while i < j
                invariant
                    0 <= i <= j < entries@.len(),
                    ds == entries.deep_view(),
                    ds.len() == entries@.len(),
                    forall|k: int| 0 <= k < entries@.len() ==> #[trigger] ds[k] == entries@[k]@,
                    *self == *old(self),
                    !self.is_registered(),
                    self.wf(),
                    forall|a: int| 0 <= a < i ==> ds[a].name != ds[j as int].name,
                decreases j - i,
            {
                if crate::splice::bytes_eq(&entries[i].name, &entries[j].name) {
                    let name = crate::splice::copy_bytes(&entries[j].name);
                    proof {
                        assert(ds[i as int] == entries@[i as int]@);
                        assert(ds[j as int] == entries@[j as int]@);
                        assert(ds[i as int].name == ds[j as int].name);
                        assert(ds[j as int].name == name@);
                        assert(0 <= i < j < ds.len());
                    }
                    return Err(Error::DuplicateName { name });
                }
                i += 1;
            }
            j += 1;
        }
        assert(!has_dup_name(ds));
        // Serialize and store each entry.
        let mut rest = entries;
        let mut stored: Vec<StoredBound> = Vec::new();
        let ghost done: int = 0;
        while rest.len() > 0
            invariant
                0 <= done <= ds.len(),
                ds.len() - done == rest@.len(),
                forall|k: int| 0 <= k < rest@.len() ==> #[trigger] rest@[k]@ == ds[done + k],
                stored@.len() == done,
                forall|k: int| 0 <= k < done ==> #[trigger] stored@[k].name@ == ds[k].name
                    && stored@[k].model@ == ds[k].set,
                forall|k: int| 0 <= k < done ==> stored_wf(#[trigger] stored@[k]),
                entries_map(stored@) == decls_map(ds.take(done)),
                forall|a: int, b: int| 0 <= a < b < ds.len() ==> ds[a].name != ds[b].name,
            decreases rest@.len(),
        {
            let ghost stored_before = stored@;
            let d = rest.remove(0);
            proof {
                assert(d@ == ds[done]);
                assert(forall|k: int| 0 <= k < rest@.len() ==> #[trigger] rest@[k]@ == ds[done + 1
                    + k]);
            }
            let generics_enc = encode_params(&d.params);
            let where_enc = encode_preds(&d.preds);
            proof {
                crate::codec::lemma_vec_params_bounded(d.params);
                crate::codec::lemma_vec_strs_bounded(d.preds);
            }
            let entry = StoredBound {
                name: d.name,
                generics_enc,
                where_enc,
                model: Ghost(d@.set),
            };
            proof {
                assert(stored_wf(entry));
            }
            stored.push(entry);
            proof {
                assert(stored@.drop_last() =~= stored_before);
                assert(ds.take(done + 1).drop_last() =~= ds.take(done));
                assert(ds.take(done + 1).last() == ds[done]);
                assert(entries_map(stored@) == decls_map(ds.take(done + 1)));
            }
            proof {
                done = done + 1;
            }
        }
        proof {
            assert(ds.take(done) =~= ds);
        }
        self.entries = stored;
        self.registered = true;
        Ok(())
    }

    /// Looks a name up and re-parses the stored serialized forms. Fails with
    /// `NotYetRegistered` before any registration and with `UnknownBound` for
    /// a name the registration did not carry; otherwise yields the stored
    /// bound set's parameters and predicates.
    pub fn lookup(&self, name: &Vec<u8>) -> (r: Result<(Vec<GenericParam>, Vec<Vec<u8>>), Error>)
        requires
            self.wf(),
        ensures
            !self.is_registered() ==> (r matches Err(e) && e == Error::NotYetRegistered),
            self.is_registered() && !self@.contains_key(name@) ==> (r matches Err(e)
                && e matches Error::UnknownBound { name: n } && n@ == name@),
            self.is_registered() && self@.contains_key(name@) ==> (r matches Ok((ps, preds))
                && ps.deep_view() == self@[name@].params && preds.deep_view()
                == self@[name@].preds),
    {
        proof {
            lemma_entries_map_props(self.entries@);
        }
        if !self.registered {
            return Err(Error::NotYetRegistered);
        }
        let mut i: usize = 0;
        while i < self.entries.len()
            invariant
                0 <= i <= self.entries@.len(),
                self.wf(),
                forall|k: int| 0 <= k < i ==> #[trigger] self.entries@[k].name@ != name@,
            decreases self.entries@.len() - i,
        {
            if crate::splice::bytes_eq(&self.entries[i].name, name) {
                let entry = &self.entries[i];
                proof {
                    lemma_entries_map_props(self.entries@);
                    assert(self@.contains_key(name@));
                    assert(self@[name@] == entry.model@);
                    lemma_params_round_trip(entry.model@.params);
                    lemma_preds_round_trip(entry.model@.preds);
                    assert(dec_params(entry.generics_enc@) == Some(entry.model@.params));
                    assert(dec_preds(entry.where_enc@) == Some(entry.model@.preds));
                }
                let ps = match decode_params(&entry.generics_enc) {
                    Some(ps) => ps,
                    None => {
                        // Defensive: a stored form that fails to re-parse is
                        // reported, never assumed away; under the registry
                        // invariant this cannot happen.
                        return Err(
                            Error::CorruptBoundSet {
                                name: crate::splice::copy_bytes(&entry.name),
                            },
                        );
                    },
                };
                let preds = match decode_preds(&entry.where_enc) {
                    Some(preds) => preds,
                    None => {
                        return Err(
                            Error::CorruptBoundSet {
                                name: crate::splice::copy_bytes(&entry.name),
                            },
                        );
                    },
                };
                return Ok((ps, preds));
            }
            i += 1;
        }
        proof {
            lemma_entries_map_props(self.entries@);
        }
        Err(Error::UnknownBound { name: crate::splice::copy_bytes(name) })
    }
}

} // verus!
