//! The native registry: a table of natively linked functions and their
//! schema entries, exposed to the host as an ordinary in-process adapter.
//!
//! An explicit registry builder replaces link-time collection: each
//! contributing unit hands its items to [`Stockpile::new`] at startup.

use vstd::prelude::*;

use crate::error::ScriptApiError;
use crate::language_adapter::LanguageAdapter;
use crate::language_adapter::OpaqueHandle;
use crate::script_api::str_eq;
use crate::script_api::ScriptApi;
use crate::script_api::ScriptType;
use crate::script_api::ScriptTypeV;
use crate::script_api::TypePath;

verus! {

/// The optional native function behind an item accepts the given argument
/// vector.
pub open spec fn item_fn_callable<F: Fn(Vec<OpaqueHandle>) -> OpaqueHandle>(
    o: Option<F>,
    args: Vec<OpaqueHandle>,
) -> bool {
    match o {
        Some(f) => call_requires(f, (args,)),
        None => true,
    }
}

/// The call table described by a sequence of path/function pairs.
pub open spec fn fn_table_view<F: Fn(Vec<OpaqueHandle>) -> OpaqueHandle>(
    v: Seq<(TypePath, F)>,
) -> Seq<(Seq<char>, F)> {
    v.map_values(|e: (TypePath, F)| (e.0@, e.1))
}

/// The call-table entries described by a sequence of stockpile items: the
/// items carrying a native function, keyed by their paths, in item order.
pub open spec fn stockpile_fn_entries<F: Fn(Vec<OpaqueHandle>) -> OpaqueHandle>(
    items: Seq<StockpileItem<F>>,
) -> Seq<(Seq<char>, F)>
    decreases items.len(),
{
    if items.len() == 0 {
        Seq::empty()
    } else {
        let rest = stockpile_fn_entries(items.drop_first());
        match items[0].function_pointer {
            Some(f) => seq![(items[0].path@, f)] + rest,
            None => rest,
        }
    }
}

/// Appending one item appends its call-table entries.
proof fn lemma_stockpile_fn_entries_push<F: Fn(Vec<OpaqueHandle>) -> OpaqueHandle>(
    items: Seq<StockpileItem<F>>,
    it: StockpileItem<F>,
)
    ensures
        stockpile_fn_entries(items.push(it)) == stockpile_fn_entries(items) + (
        match it.function_pointer {
            Some(f) => seq![(it.path@, f)],
            None => Seq::<(Seq<char>, F)>::empty(),
        }),
    decreases items.len(),
{
    let tail = (match it.function_pointer {
        Some(f) => seq![(it.path@, f)],
        None => Seq::<(Seq<char>, F)>::empty(),
    });
    if items.len() == 0 {
        assert(items.push(it).drop_first() =~= Seq::<StockpileItem<F>>::empty());
        assert(items.push(it)[0] == it);
        assert(stockpile_fn_entries(items.push(it).drop_first()) =~= Seq::<
            (Seq<char>, F),
        >::empty());
        assert(stockpile_fn_entries(items.push(it)) =~= tail);
        assert(stockpile_fn_entries(items) + tail =~= tail);
    } else {
        lemma_stockpile_fn_entries_push(items.drop_first(), it);
        assert(items.push(it).drop_first() =~= items.drop_first().push(it));
        assert(items.push(it)[0] == items[0]);
        assert(stockpile_fn_entries(items.push(it)) =~= stockpile_fn_entries(items) + tail);
    }
}

/// The catalog entries described by a sequence of stockpile items.
pub open spec fn stockpile_entries<F: Fn(Vec<OpaqueHandle>) -> OpaqueHandle>(
    items: Seq<StockpileItem<F>>,
) -> Seq<(Seq<char>, ScriptTypeV)> {
    items.map_values(|it: StockpileItem<F>| (it.path@, it.script_type@))
}

/// The outcome `out` is what some native function registered in the call
/// table under `path` returns for an argument vector whose value is `args`.
pub open spec fn delivered_by_table<F: Fn(Vec<OpaqueHandle>) -> OpaqueHandle>(
    table: Seq<(Seq<char>, F)>,
    path: Seq<char>,
    args: Seq<OpaqueHandle>,
    out: OpaqueHandle,
) -> bool {
    exists|k: int, v: Vec<OpaqueHandle>|
        #![trigger call_ensures(table[k].1, (v,), out)]
        0 <= k < table.len() && table[k].0 == path && v@ == args && call_ensures(
            table[k].1,
            (v,),
            out,
        )
}

/// An item contributed to the stockpile: a path, the definition registered
/// under it, and, when the item is callable, the native function itself.
pub struct StockpileItem<F> where F: Fn(Vec<OpaqueHandle>) -> OpaqueHandle {
    /// The path of the item.
    pub path: TypePath,
    /// The definition registered under the path.
    pub script_type: ScriptType,
    /// The native function registered with this item, if it is callable.
    pub function_pointer: Option<F>,
}

/// A [`LanguageAdapter`] holding natively linked functions, assembled once
/// at startup from the items every compilation unit contributes.
pub struct Stockpile<F> where F: Fn(Vec<OpaqueHandle>) -> OpaqueHandle {
    api: ScriptApi,
    function_pointers: Vec<(TypePath, F)>,
}

impl<F> Stockpile<F> where F: Fn(Vec<OpaqueHandle>) -> OpaqueHandle {
    /// Every stored native function accepts any argument vector, and the
    /// catalog is well formed.
    #[verifier::type_invariant]
    spec fn inv(self) -> bool {
        &&& self.api.wf()
        &&& forall|k: int, args: Vec<OpaqueHandle>|
            0 <= k < self.function_pointers@.len() ==> #[trigger] call_requires(
                self.function_pointers@[k].1,
                (args,),
            )
    }

    /// The call table: the registered native functions, keyed by path, as
    /// specifications see them.
    pub closed spec fn spec_fn_table(&self) -> Seq<(Seq<char>, F)> {
        fn_table_view(self.function_pointers@)
    }

    /// Assemble the registry. Every item's path is registered; an item that
    /// carries a native function is also entered in the call table. Fails
    /// with `TypeRedefined` exactly when two items claim the same path, and
    /// with the path of the first item whose path was already taken.
    pub fn new(items: Vec<StockpileItem<F>>) -> (r: Result<Self, ScriptApiError>)
        requires
            forall|i: int, args: Vec<OpaqueHandle>|
                0 <= i < items@.len() ==> #[trigger] item_fn_callable(
                    items@[i].function_pointer,
                    args,
                ),
        ensures
            r matches Ok(s) ==> LanguageAdapter::spec_api(&s) == stockpile_entries(items@)
                && s.spec_fn_table() == stockpile_fn_entries(items@),
            r is Ok <==> crate::script_api::paths_unique(stockpile_entries(items@)),
            r matches Err(e) ==> e matches ScriptApiError::TypeRedefined(p) && exists|j: int|
                #![trigger crate::script_api::paths_unique(stockpile_entries(items@).take(j))]
                0 <= j < items@.len() && p@ == items@[j].path@
                    && crate::script_api::paths_unique(stockpile_entries(items@).take(j))
                    && !crate::script_api::paths_unique(stockpile_entries(items@).take(j + 1)),
    {
        let ghost original = items@;
        let ghost target = stockpile_entries(items@);
        let mut api = ScriptApi::new();
        let mut function_pointers: Vec<(TypePath, F)> = Vec::new();
        let n = items.len();
        let mut rest = items;
        let mut i: usize = 0;
        proof {
            assert(api@ =~= target.take(0));
            assert(rest@ =~= original.skip(0));
            assert(fn_table_view(function_pointers@) =~= Seq::<(Seq<char>, F)>::empty());
            assert(stockpile_fn_entries(original.take(0)) =~= Seq::<(Seq<char>, F)>::empty());
        }
        // Items are taken in order; each is moved out of the input vector.
        while i < n
            invariant
                original == items@,
                i <= n,
                n == original.len(),
                rest@ == original.skip(i as int),
                target == stockpile_entries(original),
                target.len() == n,
                api@ == target.take(i as int),
                api.wf(),
                fn_table_view(function_pointers@) == stockpile_fn_entries(original.take(i as int)),
                forall|k: int, args: Vec<OpaqueHandle>|
                    0 <= k < function_pointers@.len() ==> #[trigger] call_requires(
                        function_pointers@[k].1,
                        (args,),
                    ),
                forall|k: int, args: Vec<OpaqueHandle>|
                    0 <= k < original.len() ==> #[trigger] item_fn_callable(
                        original[k].function_pointer,
                        args,
                    ),
            decreases n - i,
        {
            let item = rest.remove(0);
            proof {
                assert(original.skip(i as int)[0] == original[i as int]);
                assert(original.skip(i as int).remove(0) =~= original.skip(i as int + 1));
                assert(target[i as int] == (item.path@, item.script_type@));
            }
            let StockpileItem { path, script_type, function_pointer } = item;
            let ghost pathv = path@;
            let path_copy = copy_path(&path);
            match api.insert(path, script_type) {
                Err(e) => {
                    proof {
                        let k = api.spec_index_of_path(target[i as int].0);
                        assert(0 <= k < i && target.take(i as int)[k].0 == target[i as int].0);
                        assert(target[k].0 == target[i as int].0);
                        assert(target[k] == (original[k].path@, original[k].script_type@));
                        assert(original[k].path@ == original[i as int].path@);
                        assert(!crate::script_api::paths_unique(target));
                        assert(e matches ScriptApiError::TypeRedefined(q) && q@ == pathv);
                        assert(pathv == original[i as int].path@);
                        // The conflict at position i is the first: every
                        // earlier prefix was inserted without one.
                        assert(crate::script_api::paths_unique(target.take(i as int)));
                        assert(target.take(i as int + 1)[k].0 == target.take(i as int + 1)[i as int].0);
                        assert(!crate::script_api::paths_unique(target.take(i as int + 1)));
                        assert(target.take(i as int) =~= stockpile_entries(items@).take(i as int));
                        assert(target.take(i as int + 1) =~= stockpile_entries(items@).take(
                            i as int + 1,
                        ));
                    }
                    return Err(e);
                },
                Ok(()) => {
                    proof {
                        assert(api@ =~= target.take(i as int + 1));
                        lemma_stockpile_fn_entries_push(
                            original.take(i as int),
                            original[i as int],
                        );
                        assert(original.take(i as int + 1) =~= original.take(i as int).push(
                            original[i as int],
                        ));
                    }
                    match function_pointer {
                        Some(f) => {
                            proof {
                                assert forall|args: Vec<OpaqueHandle>| call_requires(
                                    f,
                                    (args,),
                                ) by {
                                    assert(item_fn_callable(original[i as int].function_pointer, args));
                                }
                                assert(original[i as int].function_pointer == Some(f));
                            }
                            let ghost pre_table = fn_table_view(function_pointers@);
                            function_pointers.push((path_copy, f));
                            proof {
                                assert(fn_table_view(function_pointers@) =~= pre_table.push(
                                    (pathv, f),
                                ));
                                assert(fn_table_view(function_pointers@)
                                    =~= stockpile_fn_entries(original.take(i as int + 1)));
                            }
                        },
                        None => {
                            proof {
                                assert(original[i as int].function_pointer is None);
                                assert(fn_table_view(function_pointers@)
                                    =~= stockpile_fn_entries(original.take(i as int + 1)));
                            }
                        },
                    }
                },
            }
            i = i + 1;
        }
        proof {
            assert(target.take(n as int) =~= target);
            assert(original.take(n as int) =~= original);
        }
        Ok(Stockpile { api, function_pointers })
    }
}

/// An owned copy of a path with the same characters.
fn copy_path(p: &TypePath) -> (r: TypePath)
    ensures
        r@ == p@,
{
    p.clone()
}

impl<F> LanguageAdapter for Stockpile<F> where F: Fn(Vec<OpaqueHandle>) -> OpaqueHandle {
    closed spec fn spec_api(&self) -> Seq<(Seq<char>, ScriptTypeV)> {
        self.api@
    }

    fn get_api(&self) -> (r: ScriptApi)
        ensures
            r@ == LanguageAdapter::spec_api(self),
            r.wf(),
    {
        proof {
            use_type_invariant(self);
        }
        self.api.deep_clone()
    }

    fn call_function(&self, path: &str, args: &Vec<OpaqueHandle>) -> (r: Result<
        OpaqueHandle,
        ScriptApiError,
    >)
        ensures
            !(r matches Err(ScriptApiError::NotFound(_))),
            r is Ok <==> exists|k: int|
                0 <= k < self.spec_fn_table().len() && (#[trigger] self.spec_fn_table()[k]).0
                    == path@,
            r matches Err(e) ==> e matches ScriptApiError::TypeMismatch(p) && p@ == path@,
            r matches Ok(out) ==> delivered_by_table(self.spec_fn_table(), path@, args@, out),
    {
        proof {
            use_type_invariant(self);
        }
        let n = self.function_pointers.len();
        let mut i: usize = 0;
        while i < n
            invariant
                n == self.function_pointers@.len(),
                i <= n,
                forall|m: int| 0 <= m < i ==> (#[trigger] self.spec_fn_table()[m]).0 != path@,
                forall|k: int, a: Vec<OpaqueHandle>|
                    0 <= k < self.function_pointers@.len() ==> #[trigger] call_requires(
                        self.function_pointers@[k].1,
                        (a,),
                    ),
            decreases n - i,
        {
            if str_eq(self.function_pointers[i].0.as_str(), path) {
                let owned = copy_handles(args);
                proof {
                    assert(self.spec_fn_table()[i as int] == (
                        self.function_pointers@[i as int].0@,
                        self.function_pointers@[i as int].1,
                    ));
                }
                let out = (self.function_pointers[i].1)(owned);
                proof {
                    assert(0 <= (i as int) && (i as int) < self.spec_fn_table().len());
                    assert(self.spec_fn_table()[i as int].0 == path@);
                    assert(owned@ == args@);
                    assert(call_ensures(self.spec_fn_table()[i as int].1, (owned,), out));
                    assert(delivered_by_table(self.spec_fn_table(), path@, args@, out));
                }
                return Ok(out);
            }
            proof {
                assert(self.spec_fn_table()[i as int].0 == self.function_pointers@[i as int].0@);
            }
            i = i + 1;
        }
        // The path is registered but nothing callable is behind it.
        Err(ScriptApiError::TypeMismatch(path.to_owned()))
    }
}

/// An owned copy of an argument vector.
fn copy_handles(args: &Vec<OpaqueHandle>) -> (r: Vec<OpaqueHandle>)
    ensures
        r@ == args@,
{
    let mut out: Vec<OpaqueHandle> = Vec::new();
    let n = args.len();
    let mut i: usize = 0;
    while i < n
        invariant
            n == args@.len(),
            i <= n,
            out@ == args@.take(i as int),
        decreases n - i,
    {
        out.push(args[i]);
        proof {
            assert(out@ =~= args@.take(i + 1 as int));
        }
        i = i + 1;
    }
    proof {
        assert(args@.take(n as int) =~= args@);
    }
    out
}

} // verus!
