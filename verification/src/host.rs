//! The host orchestrator: owns the list of adapters, the cache of their
//! catalogs and the path index, and resolves and dispatches every call.

use vstd::prelude::*;

use crate::error::ScriptApiError;
use crate::language_adapter::HostFunctions;
use crate::language_adapter::LanguageAdapter;
use crate::language_adapter::OpaqueHandle;
use crate::script_api::str_eq;
use crate::script_api::ScriptApi;
use crate::script_api::ScriptType;
use crate::script_api::ScriptTypeV;
use crate::script_api::TypePath;

verus! {

/// The entries of a list of catalogs, in order.
pub open spec fn concat_apis(s: Seq<ScriptApi>) -> Seq<(Seq<char>, ScriptTypeV)>
    decreases s.len(),
{
    if s.len() == 0 {
        Seq::empty()
    } else {
        s[0]@ + concat_apis(s.drop_first())
    }
}

/// The total number of entries over a list of catalogs.
pub open spec fn total_entries(s: Seq<ScriptApi>) -> nat
    decreases s.len(),
{
    if s.len() == 0 {
        0
    } else {
        s[0]@.len() + total_entries(s.drop_first())
    }
}

/// The concatenation has as many entries as the catalogs together.
pub proof fn lemma_concat_apis_len(s: Seq<ScriptApi>)
    ensures
        concat_apis(s).len() == total_entries(s),
    decreases s.len(),
{
    if s.len() > 0 {
        lemma_concat_apis_len(s.drop_first());
    }
}

/// Appending one catalog appends its entries.
proof fn lemma_concat_apis_push(s: Seq<ScriptApi>, a: ScriptApi)
    ensures
        concat_apis(s.push(a)) == concat_apis(s) + a@,
    decreases s.len(),
{
    if s.len() == 0 {
        assert(s.push(a).drop_first() =~= Seq::<ScriptApi>::empty());
        assert(s.push(a)[0] == a);
        assert(concat_apis(s.push(a).drop_first()) =~= Seq::<(Seq<char>, ScriptTypeV)>::empty());
        assert(concat_apis(s.push(a)) =~= a@);
        assert(concat_apis(s) + a@ =~= a@);
    } else {
        lemma_concat_apis_push(s.drop_first(), a);
        assert(s.push(a).drop_first() =~= s.drop_first().push(a));
        assert(concat_apis(s.push(a)) =~= concat_apis(s) + a@);
    }
}

/// A path occurs in the concatenation exactly when some catalog carries it.
proof fn lemma_concat_apis_contains(s: Seq<ScriptApi>, p: Seq<char>)
    ensures
        crate::script_api::entries_contain(concat_apis(s), p) <==> exists|i: int|
            0 <= i < s.len() && (#[trigger] s[i]).spec_contains_path(p),
    decreases s.len(),
{
    if s.len() > 0 {
        lemma_concat_apis_contains(s.drop_first(), p);
        if crate::script_api::entries_contain(concat_apis(s), p) {
            let k = choose|k: int| 0 <= k < concat_apis(s).len() && concat_apis(s)[k].0 == p;
            if k < s[0]@.len() {
                assert(s[0].spec_contains_path(p));
            } else {
                assert(concat_apis(s.drop_first())[k - s[0]@.len()].0 == p);
                assert(crate::script_api::entries_contain(concat_apis(s.drop_first()), p));
                let i = choose|i: int|
                    0 <= i < s.drop_first().len() && (#[trigger] s.drop_first()[i])
                        .spec_contains_path(p);
                assert(s[i + 1].spec_contains_path(p));
            }
        }
        if exists|i: int| 0 <= i < s.len() && (#[trigger] s[i]).spec_contains_path(p) {
            let i = choose|i: int| 0 <= i < s.len() && (#[trigger] s[i]).spec_contains_path(p);
            if i == 0 {
                let j = s[0].spec_index_of_path(p);
                assert(concat_apis(s)[j].0 == p);
            } else {
                assert(s.drop_first()[i - 1].spec_contains_path(p));
                let k = choose|k: int|
                    0 <= k < concat_apis(s.drop_first()).len() && concat_apis(s.drop_first())[k].0
                        == p;
                assert(concat_apis(s)[s[0]@.len() + k].0 == p);
            }
        }
    }
}

/// The main struct of a Dynamite host: the registered adapters, the cache
/// of their catalogs and the index from path to owning adapter.
pub struct Dynamite<A: LanguageAdapter> {
    /// The set of language adapters.
    adapters: Vec<A>,
    /// A cache of the catalogs provided by the registered adapters,
    /// index-aligned with `adapters`.
    api_cache: Vec<ScriptApi>,
    /// Maps each registered path to the index of the adapter providing it.
    type_adapter_index: Vec<(TypePath, usize)>,
}

impl<A: LanguageAdapter> Dynamite<A> {
    /// The registered adapters, in registration order.
    pub closed spec fn spec_adapters(self) -> Seq<A> {
        self.adapters@
    }

    /// The cached catalogs, index-aligned with the adapters.
    pub closed spec fn spec_api_cache(self) -> Seq<ScriptApi> {
        self.api_cache@
    }

    /// The path index, as path and adapter position.
    pub closed spec fn spec_index(self) -> Seq<(Seq<char>, int)> {
        self.type_adapter_index@.map_values(|e: (TypePath, usize)| (e.0@, e.1 as int))
    }

    /// The merged catalog: all cached catalogs, in registration order.
    pub open spec fn spec_full_api(self) -> Seq<(Seq<char>, ScriptTypeV)> {
        concat_apis(self.spec_api_cache())
    }

    /// Some registered adapter's catalog carries the given path.
    pub open spec fn spec_contains_path(self, p: Seq<char>) -> bool {
        exists|i: int|
            0 <= i < self.spec_api_cache().len() && (#[trigger] self.spec_api_cache()[i])
                .spec_contains_path(p)
    }

    /// The position of the adapter whose catalog carries the given path.
    pub open spec fn spec_owner(self, p: Seq<char>) -> int {
        choose|i: int|
            0 <= i < self.spec_api_cache().len() && (#[trigger] self.spec_api_cache()[i])
                .spec_contains_path(p)
    }

    /// The definition registered under the given path.
    pub open spec fn spec_lookup(self, p: Seq<char>) -> ScriptTypeV {
        self.spec_api_cache()[self.spec_owner(p)].spec_lookup(p)
    }

    /// The index has an entry mapping the path to the adapter position.
    pub open spec fn index_maps(self, p: Seq<char>, a: int) -> bool {
        exists|k: int|
            0 <= k < self.spec_index().len() && #[trigger] self.spec_index()[k] == (p, a)
    }

    /// The host invariant. Adapters and cached catalogs are index-aligned;
    /// each cached catalog is well formed and is what its adapter exposes;
    /// no path is claimed by two adapters; and the path index maps exactly
    /// the registered paths, each to its owning adapter.
    pub open spec fn wf(self) -> bool {
        &&& self.spec_adapters().len() == self.spec_api_cache().len()
        &&& forall|i: int|
            0 <= i < self.spec_api_cache().len() ==> (#[trigger] self.spec_api_cache()[i]).wf()
        &&& forall|i: int|
            0 <= i < self.spec_api_cache().len() ==> (#[trigger] self.spec_api_cache()[i])@
                == self.spec_adapters()[i].spec_api()
        &&& forall|i: int, j: int, p: Seq<char>|
            #![trigger self.spec_api_cache()[i].spec_contains_path(p), self.spec_api_cache()[j].spec_contains_path(p)]
            0 <= i < j < self.spec_api_cache().len() && self.spec_api_cache()[i].spec_contains_path(
                p,
            ) ==> !self.spec_api_cache()[j].spec_contains_path(p)
        &&& forall|k: int|
            0 <= k < self.spec_index().len() ==> 0 <= (#[trigger] self.spec_index()[k]).1
                < self.spec_api_cache().len() && self.spec_api_cache()[self.spec_index()[k].1]
                .spec_contains_path(self.spec_index()[k].0)
        &&& forall|i: int, j: int|
            0 <= i < self.spec_api_cache().len() && 0 <= j < self.spec_api_cache()[i]@.len()
                ==> self.index_maps(#[trigger] self.spec_api_cache()[i]@[j].0, i)
    }

    /// Create a new Dynamite host with no adapters.
    pub fn new() -> (r: Self)
        ensures
            r.wf(),
            r.spec_adapters().len() == 0,
            r.spec_full_api() == Seq::<(Seq<char>, ScriptTypeV)>::empty(),
    {
        let r = Dynamite { adapters: Vec::new(), api_cache: Vec::new(), type_adapter_index: Vec::new() };
        proof {
            assert(r.spec_index() =~= Seq::<(Seq<char>, int)>::empty());
            assert(r.spec_full_api() =~= Seq::<(Seq<char>, ScriptTypeV)>::empty());
        }
        r
    }

    /// The adapter position owning the given path, if any is registered.
    fn resolve(&self, path: &str) -> (r: Option<usize>)
        requires
            self.wf(),
        ensures
            match r {
                Some(a) => (a as int) < self.spec_api_cache().len() && self.spec_api_cache()[a as int].spec_contains_path(path@),
                None => !self.spec_contains_path(path@),
            },
    {
        let n = self.type_adapter_index.len();
        let mut k: usize = 0;
        while k < n
            invariant
                self.wf(),
                n == self.spec_index().len(),
                k <= n,
                forall|m: int| 0 <= m < k ==> (#[trigger] self.spec_index()[m]).0 != path@,
            decreases n - k,
        {
            if str_eq(self.type_adapter_index[k].0.as_str(), path) {
                let a = self.type_adapter_index[k].1;
                proof {
                    assert(self.spec_index()[k as int] == (path@, a as int));
                }
                return Some(a);
            }
            proof {
                assert(self.spec_index()[k as int].0 == self.type_adapter_index@[k as int].0@);
            }
            k = k + 1;
        }
        proof {
            assert forall|i: int|
                0 <= i < self.spec_api_cache().len() implies !(#[trigger] self.spec_api_cache()[i])
                .spec_contains_path(path@) by {
                if self.spec_api_cache()[i].spec_contains_path(path@) {
                    let j = self.spec_api_cache()[i].spec_index_of_path(path@);
                    assert(self.spec_api_cache()[i]@[j].0 == path@);
                    assert(self.index_maps(path@, i));
                }
            }
        }
        None
    }

    /// Register an adapter. Its catalog is fetched and merged; the whole
    /// registration fails with `TypeRedefined`, leaving the host unchanged,
    /// exactly when some path of the new catalog is already claimed. On
    /// success the catalog and the adapter are appended and the merged
    /// catalog grows by exactly the new catalog's entries.
    pub fn add_language_adapter(&mut self, adapter: A) -> (r: Result<(), ScriptApiError>)
        requires
            old(self).wf(),
        ensures
            final(self).wf(),
            r is Ok <==> !(exists|p: Seq<char>|
                #[trigger] crate::script_api::entries_contain(adapter.spec_api(), p) && old(
                    self,
                ).spec_contains_path(p)),
            r is Ok ==> final(self).spec_adapters() == old(self).spec_adapters().push(adapter)
                && final(self).spec_api_cache().len() == old(self).spec_api_cache().len() + 1
                && final(self).spec_api_cache().last()@ == adapter.spec_api()
                && final(self).spec_full_api() == old(self).spec_full_api() + adapter.spec_api(),
            r is Err ==> *final(self) == *old(self),
            r matches Err(e) ==> e matches ScriptApiError::TypeRedefined(p) && old(
                self,
            ).spec_contains_path(p@) && crate::script_api::entries_contain(adapter.spec_api(), p@),
    {
        let api = adapter.get_api();
        let n = api.len();
        let mut j: usize = 0;
        // Check for conflicting paths before touching any state.
        while j < n
            invariant
                self.wf(),
                *self == *old(self),
                api@ == adapter.spec_api(),
                api.wf(),
                n == api@.len(),
                j <= n,
                forall|m: int| 0 <= m < j ==> !self.spec_contains_path(#[trigger] api@[m].0),
            decreases n - j,
        {
            let entry = api.entry_at(j);
            match self.resolve(entry.0.as_str()) {
                Some(_) => {
                    let p = entry.0.clone();
                    proof {
                        assert(api@[j as int].0 == p@);
                        assert(crate::script_api::entries_contain(adapter.spec_api(), p@));
                    }
                    return Err(ScriptApiError::TypeRedefined(p));
                },
                None => {},
            }
            j = j + 1;
        }
        // No conflicts: enter every path into the index, then append the
        // catalog and the adapter.
        let idx = self.api_cache.len();
        let ghost old_index = self.spec_index();
        let mut j: usize = 0;
        while j < n
            invariant
                old(self).wf(),
                self.adapters@ == old(self).adapters@,
                self.api_cache@ == old(self).api_cache@,
                old_index == old(self).spec_index(),
                idx == self.api_cache@.len(),
                api@ == adapter.spec_api(),
                api.wf(),
                n == api@.len(),
                j <= n,
                forall|m: int| 0 <= m < n ==> !old(self).spec_contains_path(#[trigger] api@[m].0),
                self.spec_index().len() == old_index.len() + j,
                forall|k: int| 0 <= k < old_index.len() ==> #[trigger] self.spec_index()[k]
                    == old_index[k],
                forall|m: int|
                    0 <= m < j ==> #[trigger] self.spec_index()[old_index.len() + m] == (
                        api@[m].0,
                        idx as int,
                    ),
            decreases n - j,
        {
            let entry = api.entry_at(j);
            let p = entry.0.clone();
            let ghost pre = self.spec_index();
            self.type_adapter_index.push((p, idx));
            proof {
                assert(self.spec_index() =~= pre.push((api@[j as int].0, idx as int)));
            }
            j = j + 1;
        }
        let ghost apiv = api@;
        let ghost idxv = self.spec_index();
        self.api_cache.push(api);
        self.adapters.push(adapter);
        proof {
            assert(self.spec_index() == idxv);
            lemma_concat_apis_push(old(self).spec_api_cache(), self.spec_api_cache().last());
            assert(self.spec_api_cache() =~= old(self).spec_api_cache().push(
                self.spec_api_cache().last(),
            ));
            assert(self.spec_adapters() =~= old(self).spec_adapters().push(adapter));
            let cache = self.spec_api_cache();
            let len = cache.len();
            // Pairwise disjointness, with the new catalog disjoint from all
            // older ones because no new path resolved.
            assert forall|i: int, jj: int, p: Seq<char>|
                #![trigger cache[i].spec_contains_path(p), cache[jj].spec_contains_path(p)]
                0 <= i < jj < len && cache[i].spec_contains_path(p) implies !cache[jj]
                .spec_contains_path(p) by {
                if jj == len - 1 {
                    if cache[jj].spec_contains_path(p) {
                        let m = cache[jj].spec_index_of_path(p);
                        assert(apiv[m].0 == p);
                        assert(!old(self).spec_contains_path(p));
                    }
                }
            }
            // Index soundness for old and new entries.
            assert forall|k: int| 0 <= k < self.spec_index().len() implies 0 <= (
            #[trigger] self.spec_index()[k]).1 < len && cache[self.spec_index()[k].1]
                .spec_contains_path(self.spec_index()[k].0) by {
                if k < old_index.len() {
                    assert(self.spec_index()[k] == old_index[k]);
                    let a = old_index[k].1;
                    assert(old(self).spec_api_cache()[a] == cache[a]);
                } else {
                    let m = k - old_index.len();
                    assert(self.spec_index()[old_index.len() + m] == (apiv[m].0, idx as int));
                    assert(old_index.len() + m == k);
                    assert(cache[idx as int]@[m].0 == apiv[m].0);
                }
            }
            // Index completeness for old and new entries.
            assert forall|i: int, jj: int|
                0 <= i < len && 0 <= jj < cache[i]@.len() implies self.index_maps(
                #[trigger] cache[i]@[jj].0,
                i,
            ) by {
                if i < len - 1 {
                    assert(old(self).spec_api_cache()[i] == cache[i]);
                    assert(old(self).spec_api_cache()[i]@[jj].0 == cache[i]@[jj].0);
                    assert(old(self).index_maps(cache[i]@[jj].0, i));
                    let k = choose|k: int|
                        0 <= k < old_index.len() && #[trigger] old_index[k] == (cache[i]@[jj].0, i);
                    assert(self.spec_index()[k] == (cache[i]@[jj].0, i));
                } else {
                    assert(self.spec_index()[old_index.len() + jj] == (apiv[jj].0, idx as int));
                }
            }
        }
        Ok(())
    }

    /// The full scripting API: the union of all cached catalogs. Their
    /// paths are disjoint by the registration invariant, so the union is
    /// their concatenation.
    pub fn get_full_api(&self) -> (r: ScriptApi)
        requires
            self.wf(),
        ensures
            r@ == self.spec_full_api(),
            r.wf(),
    {
        let mut full = ScriptApi::new();
        let n = self.api_cache.len();
        let mut i: usize = 0;
        proof {
            assert(full@ =~= concat_apis(self.spec_api_cache().take(0)));
        }
        while i < n
            invariant
                self.wf(),
                n == self.spec_api_cache().len(),
                i <= n,
                full@ == concat_apis(self.spec_api_cache().take(i as int)),
                full.wf(),
            decreases n - i,
        {
            proof {
                let taken = self.spec_api_cache().take(i as int);
                assert forall|p: Seq<char>| full.spec_contains_path(p) implies !(
                #[trigger] self.spec_api_cache()[i as int].spec_contains_path(p)) by {
                    lemma_concat_apis_contains(taken, p);
                    if full.spec_contains_path(p) {
                        let m = choose|m: int|
                            0 <= m < taken.len() && (#[trigger] taken[m]).spec_contains_path(p);
                        assert(self.spec_api_cache()[m].spec_contains_path(p));
                    }
                }
            }
            full.append_catalog(&self.api_cache[i]);
            proof {
                lemma_concat_apis_push(self.spec_api_cache().take(i as int), self.spec_api_cache()[i as int]);
                assert(self.spec_api_cache().take(i + 1 as int) =~= self.spec_api_cache().take(
                    i as int,
                ).push(self.spec_api_cache()[i as int]));
            }
            i = i + 1;
        }
        proof {
            assert(self.spec_api_cache().take(n as int) =~= self.spec_api_cache());
        }
        full
    }

    /// Resolve a path and dispatch the call to the adapter owning it.
    /// A path absent from every catalog is reported as `NotFound`; a path
    /// naming a struct rather than a function is a `TypeMismatch`; a call
    /// whose argument count differs from the declared signature is an
    /// `ArityMismatch`. Only a call that passes these checks reaches the
    /// owning adapter.
    pub fn call_function(&self, path: &str, args: &Vec<OpaqueHandle>) -> (r: Result<
        OpaqueHandle,
        ScriptApiError,
    >)
        requires
            self.wf(),
        ensures
            !self.spec_contains_path(path@) ==> (r matches Err(ScriptApiError::NotFound(p)) && p@
                == path@),
            r matches Err(ScriptApiError::NotFound(p)) ==> !self.spec_contains_path(path@) && p@
                == path@,
            self.spec_contains_path(path@) && (self.spec_lookup(path@) matches
                ScriptTypeV::Struct(_)) ==> (r matches Err(ScriptApiError::TypeMismatch(p)) && p@
                == path@),
            self.spec_contains_path(path@) && (self.spec_lookup(path@) matches
                ScriptTypeV::Function(f) && f.arguments.len() != args@.len()) ==> (r matches Err(
                ScriptApiError::ArityMismatch(p),
            ) && p@ == path@),
            r matches Err(ScriptApiError::TypeMismatch(_)) ==> self.spec_contains_path(path@),
            r matches Err(ScriptApiError::ArityMismatch(_)) ==> self.spec_contains_path(path@),
            self.spec_contains_path(path@) && (self.spec_lookup(path@) matches
                ScriptTypeV::Function(f) && f.arguments.len() == args@.len()) ==> call_ensures(
                A::call_function,
                (&self.spec_adapters()[self.spec_owner(path@)], path, args),
                r,
            ),
    {
        match self.resolve(path) {
            None => Err(ScriptApiError::NotFound(path.to_owned())),
            Some(a) => {
                proof {
                    assert(self.spec_contains_path(path@));
                    let b = self.spec_owner(path@);
                    assert(self.spec_api_cache()[b].spec_contains_path(path@));
                    assert(b == a as int);
                }
                match self.api_cache[a].get(path) {
                    None => {
                        proof {
                            assert(false);
                        }
                        Err(ScriptApiError::NotFound(path.to_owned()))
                    },
                    Some(t) => {
                        match t {
                            ScriptType::Struct(_) => Err(
                                ScriptApiError::TypeMismatch(path.to_owned()),
                            ),
                            ScriptType::Function(fd) => {
                                if fd.arguments.len() != args.len() {
                                    Err(ScriptApiError::ArityMismatch(path.to_owned()))
                                } else {
                                    proof {
                                        assert(self.spec_api_cache()[a as int]@
                                            == self.spec_adapters()[a as int].spec_api());
                                        let j = self.spec_api_cache()[a as int].spec_index_of_path(path@);
                                        assert(self.spec_adapters()[a as int].spec_api()[j].0
                                            == path@);
                                    }
                                    let out = self.adapters[a].call_function(path, args);
                                    proof {
                                        assert(self.spec_owner(path@) == a as int);
                                        assert(call_ensures(
                                            A::call_function,
                                            (&self.spec_adapters()[a as int], path, args),
                                            out,
                                        ));
                                    }
                                    out
                                }
                            },
                        }
                    },
                }
            },
        }
    }
}

impl<A: LanguageAdapter> HostFunctions for Dynamite<A> {
    open spec fn host_wf(&self) -> bool {
        self.wf()
    }

    fn get_full_api(&self) -> Result<ScriptApi, ScriptApiError> {
        Ok(Dynamite::<A>::get_full_api(self))
    }

    fn call_function(&self, path: &str, args: &Vec<OpaqueHandle>) -> Result<
        OpaqueHandle,
        ScriptApiError,
    > {
        Dynamite::<A>::call_function(self, path, args)
    }
}

/// With pairwise-disjoint catalogs all registered, the merged catalog is
/// exactly their concatenation: its size is the sum of the catalog sizes,
/// and every registered path leads back to the adapter that registered it.
pub proof fn lemma_full_api_partition<A: LanguageAdapter>(d: Dynamite<A>)
    requires
        d.wf(),
    ensures
        d.spec_full_api().len() == total_entries(d.spec_api_cache()),
        forall|i: int, p: Seq<char>|
            #![trigger d.spec_api_cache()[i].spec_contains_path(p)]
            0 <= i < d.spec_api_cache().len() && d.spec_api_cache()[i].spec_contains_path(p)
                ==> d.spec_contains_path(p) && d.spec_owner(p) == i,
{
    lemma_concat_apis_len(d.spec_api_cache());
    assert forall|i: int, p: Seq<char>|
        #![trigger d.spec_api_cache()[i].spec_contains_path(p)]
        0 <= i < d.spec_api_cache().len() && d.spec_api_cache()[i].spec_contains_path(
            p,
        ) implies d.spec_contains_path(p) && d.spec_owner(p) == i by {
        assert(d.spec_contains_path(p));
        let o = d.spec_owner(p);
        assert(d.spec_api_cache()[o].spec_contains_path(p));
        if o < i {
            assert(!d.spec_api_cache()[i].spec_contains_path(p));
        }
        if i < o {
            assert(!d.spec_api_cache()[o].spec_contains_path(p));
        }
    }
}

} // verus!
