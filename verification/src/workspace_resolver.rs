//! Workspace planning: from a built config and a field assignment to the
//! ordered list of concrete paths to materialize, with inherited
//! permission and ownership and lazy subtrees dropped.
//!
//! A node whose placeholders (or an ancestor's) the fields do not cover is
//! pruned with its subtree.  `Inherit` attributes take the parent's resolved
//! value.  A node declared deferred stays deferred unless its own
//! placeholders are all resolved; deferredness also flows down, first along
//! the tree and then, after sorting, from any literal ancestor directory to
//! its descendants.  Deferred nodes are dropped from the result, which is
//! sorted by path.

use vstd::prelude::*;

use crate::config::Config;
use crate::config::spec_chain;
use crate::config::spec_items_wf;
use crate::error::Error;
use crate::field_key::FieldKey;
use crate::path_item::Owner;
use crate::path_item::Permission;
use crate::path_item::PathItemModel;
use crate::path_item::ResolvedItemModel;
use crate::path_item::ResolvedPathItem;
use crate::path_item::share_arc;
use crate::path_resolver::spec_render_chain;
use crate::pathtext::lex_leq;
use crate::pathtext::spec_is_ancestor;
use crate::pathtext::spec_lex_leq;
use crate::pathtext::spec_parent_dir;
use crate::pathtext::is_ancestor_path;
use crate::pathtext::join_component;
use crate::pathtext::spec_join;
use crate::token::RenderError;
use crate::token::spec_render_error_matches;
use crate::token::spec_render_tokens;
use crate::token::spec_has_variables;
use crate::token::spec_tokens_resolved_by;
use crate::value::PathValueModel;
use crate::PathAttributes;

verus! {

/// Every placeholder on the node's chain, including its own, has a value:
/// the node survives pruning.
pub open spec fn spec_chain_resolved(
    items: Seq<PathItemModel>,
    fields: Map<Seq<char>, PathValueModel>,
    i: int,
) -> bool
    decreases i
        when 0 <= i < items.len() && spec_items_wf(items)
{
    (match items[i].parent {
        None => true,
        Some(p) => spec_chain_resolved(items, fields, p),
    }) && spec_tokens_resolved_by(items[i].path, fields)
}

/// The permission in force at a node: its own unless `Inherit`, then the
/// parent's resolved permission; a root keeps its declared value.
pub open spec fn spec_eff_permission(items: Seq<PathItemModel>, i: int) -> Permission
    decreases i
        when 0 <= i < items.len() && spec_items_wf(items)
{
    match items[i].parent {
        None => items[i].permission,
        Some(p) => if items[i].permission is Inherit {
            spec_eff_permission(items, p)
        } else {
            items[i].permission
        },
    }
}

/// The owner in force at a node, resolved the same way as the permission.
pub open spec fn spec_eff_owner(items: Seq<PathItemModel>, i: int) -> Owner
    decreases i
        when 0 <= i < items.len() && spec_items_wf(items)
{
    match items[i].parent {
        None => items[i].owner,
        Some(p) => if items[i].owner is Inherit {
            spec_eff_owner(items, p)
        } else {
            items[i].owner
        },
    }
}

/// The deferred flag in force at a node: a node declared deferred whose own
/// placeholders all resolve is overridden to non-deferred; otherwise it is
/// deferred when its own flag is set or its parent is effectively deferred.
pub open spec fn spec_eff_deferred(
    items: Seq<PathItemModel>,
    fields: Map<Seq<char>, PathValueModel>,
    i: int,
) -> bool
    decreases i
        when 0 <= i < items.len() && spec_items_wf(items)
{
    if items[i].deferred && spec_has_variables(items[i].path) && spec_tokens_resolved_by(
        items[i].path,
        fields,
    ) {
        false
    } else {
        items[i].deferred || (match items[i].parent {
            None => false,
            Some(p) => spec_eff_deferred(items, fields, p),
        })
    }
}

/// The first declared key, in declaration order from position `j`, whose
/// node is `i`.
pub open spec fn spec_key_of_from(c: &Config, i: int, j: int) -> Option<Seq<char>>
    decreases c.item_map.key_seq().len() - j,
{
    if j < 0 || j >= c.item_map.key_seq().len() {
        None
    } else if c.item_map@[c.item_map.key_seq()[j]] == i {
        Some(c.item_map.key_seq()[j])
    } else {
        spec_key_of_from(c, i, j + 1)
    }
}

/// The declared key a node answers for, when it is some item's final
/// component.
pub open spec fn spec_key_of(c: &Config, i: int) -> Option<Seq<char>> {
    spec_key_of_from(c, i, 0)
}

/// The first arena index, from `i` on, whose surviving node fails to
/// render, or the arena length when every surviving node renders.
pub open spec fn spec_first_render_failure(
    c: &Config,
    fields: Map<Seq<char>, PathValueModel>,
    i: int,
) -> int
    decreases c.items_model().len() - i,
{
    if i < 0 || i >= c.items_model().len() {
        c.items_model().len() as int
    } else if spec_chain_resolved(c.items_model(), fields, i) && spec_render_tokens(
        c.items_model()[i].path,
        fields,
        c.resolvers@,
    ) is Err {
        i
    } else {
        spec_first_render_failure(c, fields, i + 1)
    }
}

/// The surviving arena indices below `n`, in arena order.
pub open spec fn spec_survivors(
    items: Seq<PathItemModel>,
    fields: Map<Seq<char>, PathValueModel>,
    n: int,
) -> Seq<int>
    decreases n,
{
    if n <= 0 {
        Seq::empty()
    } else if spec_chain_resolved(items, fields, n - 1) {
        spec_survivors(items, fields, n - 1).push(n - 1)
    } else {
        spec_survivors(items, fields, n - 1)
    }
}

/// The resolved node a surviving arena index materializes to.
pub open spec fn spec_entry(
    c: &Config,
    fields: Map<Seq<char>, PathValueModel>,
    i: int,
) -> ResolvedItemModel {
    ResolvedItemModel {
        key: spec_key_of(c, i),
        value: spec_render_chain(
            c.items_model(),
            spec_chain(c.items_model(), i),
            fields,
            c.resolvers@,
        )->Ok_0,
        permission: spec_eff_permission(c.items_model(), i),
        owner: spec_eff_owner(c.items_model(), i),
        path_type: c.items_model()[i].path_type,
        deferred: spec_eff_deferred(c.items_model(), fields, i),
        metadata: c.items_model()[i].metadata,
    }
}

/// Insert one entry behind every entry whose path is not greater: a stable
/// insertion into a path-sorted sequence.
pub open spec fn spec_insert_entry(
    sorted: Seq<ResolvedItemModel>,
    e: ResolvedItemModel,
) -> Seq<ResolvedItemModel>
    decreases sorted.len(),
{
    if sorted.len() == 0 {
        seq![e]
    } else if spec_lex_leq(sorted.last().value, e.value) {
        sorted.push(e)
    } else {
        spec_insert_entry(sorted.drop_last(), e).push(sorted.last())
    }
}

/// Stable insertion sort of resolved nodes by path.
pub open spec fn spec_sort_entries(s: Seq<ResolvedItemModel>) -> Seq<ResolvedItemModel>
    decreases s.len(),
{
    if s.len() == 0 {
        Seq::empty()
    } else {
        spec_insert_entry(spec_sort_entries(s.drop_last()), s.last())
    }
}

/// Whether the sorted node at position `b` ends up deferred: its own
/// effective flag, or any earlier node whose path is a literal ancestor
/// directory and which itself ends up deferred.
pub open spec fn spec_final_deferred(s: Seq<ResolvedItemModel>, b: int) -> bool
    decreases b
        when b >= 0
{
    if b < 0 || b >= s.len() {
        false
    } else {
        s[b].deferred || exists|a: int|
            0 <= a < b && spec_is_ancestor((#[trigger] s[a]).value, s[b].value)
                && spec_final_deferred(s, a)
    }
}

/// The sorted nodes that end up deferred are dropped; the rest keep their
/// order.
pub open spec fn spec_drop_deferred(s: Seq<ResolvedItemModel>, n: int) -> Seq<ResolvedItemModel>
    decreases n,
{
    if n <= 0 {
        Seq::empty()
    } else if spec_final_deferred(s, n - 1) {
        spec_drop_deferred(s, n - 1)
    } else {
        spec_drop_deferred(s, n - 1).push(s[n - 1])
    }
}

/// Everything `get_workspace` returns when every surviving node renders:
/// the surviving nodes, resolved, sorted by path, with deferred subtrees
/// dropped.
pub open spec fn spec_workspace(c: &Config, fields: Map<Seq<char>, PathValueModel>) -> Seq<
    ResolvedItemModel,
> {
    let pre = spec_survivors(c.items_model(), fields, c.items_model().len() as int).map(
        |j: int, i: int| spec_entry(c, fields, i),
    );
    let sorted = spec_sort_entries(pre);
    spec_drop_deferred(sorted, sorted.len() as int)
}

/// A surviving node that fails to render bounds the first failure index.
proof fn lemma_first_failure_le(
    c: &Config,
    fields: Map<Seq<char>, PathValueModel>,
    k: int,
    j: int,
)
    requires
        0 <= k <= j < c.items_model().len(),
        spec_chain_resolved(c.items_model(), fields, j),
        spec_render_tokens(c.items_model()[j].path, fields, c.resolvers@) is Err,
    ensures
        spec_first_render_failure(c, fields, k) <= j,
    decreases j - k,
{
    if !(spec_chain_resolved(c.items_model(), fields, k) && spec_render_tokens(
        c.items_model()[k].path,
        fields,
        c.resolvers@,
    ) is Err) {
        lemma_first_failure_le(c, fields, k + 1, j);
    }
}

/// The first failure index never lies below its starting point.
proof fn lemma_first_failure_ge(c: &Config, fields: Map<Seq<char>, PathValueModel>, i: int)
    requires
        0 <= i <= c.items_model().len(),
    ensures
        i <= spec_first_render_failure(c, fields, i) <= c.items_model().len(),
    decreases c.items_model().len() - i,
{
    if i < c.items_model().len() {
        if !(spec_chain_resolved(c.items_model(), fields, i) && spec_render_tokens(
            c.items_model()[i].path,
            fields,
            c.resolvers@,
        ) is Err) {
            lemma_first_failure_ge(c, fields, i + 1);
        }
    }
}

/// When every surviving node up to `i` renders, the whole chain of a
/// surviving node renders.
proof fn lemma_render_chain_ok(c: &Config, fields: Map<Seq<char>, PathValueModel>, i: int)
    requires
        c.wf(),
        0 <= i < c.items_model().len(),
        spec_chain_resolved(c.items_model(), fields, i),
        forall|j: int|
            0 <= j <= i && spec_chain_resolved(c.items_model(), fields, j)
                ==> !(spec_render_tokens(
                (#[trigger] c.items_model()[j]).path,
                fields,
                c.resolvers@,
            ) is Err),
    ensures
        spec_render_chain(
            c.items_model(),
            spec_chain(c.items_model(), i),
            fields,
            c.resolvers@,
        ) is Ok,
        spec_render_chain(c.items_model(), spec_chain(c.items_model(), i), fields, c.resolvers@)
            == Ok::<Seq<char>, RenderError>(
            spec_join(
                match c.items_model()[i].parent {
                    None => Seq::empty(),
                    Some(p) => spec_render_chain(
                        c.items_model(),
                        spec_chain(c.items_model(), p),
                        fields,
                        c.resolvers@,
                    )->Ok_0,
                },
                spec_render_tokens(c.items_model()[i].path, fields, c.resolvers@)->Ok_0,
            ),
        ),
    decreases i,
{
    let items = c.items_model();
    assert(spec_chain_resolved(items, fields, i));
    assert(!(spec_render_tokens(items[i].path, fields, c.resolvers@) is Err));
    let own = spec_render_tokens(items[i].path, fields, c.resolvers@);
    assert(own is Ok);
    let ch = spec_chain(items, i);
    match items[i].parent {
        None => {
            assert(ch == seq![i]);
            assert(ch.drop_last() =~= Seq::<int>::empty());
            assert(ch.last() == i);
            assert(spec_render_chain(items, ch.drop_last(), fields, c.resolvers@) == Ok::<
                Seq<char>,
                RenderError,
            >(Seq::empty()));
            assert(spec_render_chain(items, ch, fields, c.resolvers@) == Ok::<
                Seq<char>,
                RenderError,
            >(spec_join(Seq::empty(), own->Ok_0)));
        },
        Some(p) => {
            lemma_render_chain_ok(c, fields, p);
            assert(ch == spec_chain(items, p).push(i));
            assert(ch.drop_last() =~= spec_chain(items, p));
            assert(ch.last() == i);
            let pre = spec_render_chain(items, spec_chain(items, p), fields, c.resolvers@);
            assert(pre is Ok);
            assert(spec_render_chain(items, ch.drop_last(), fields, c.resolvers@) == pre);
            assert(spec_render_chain(items, ch, fields, c.resolvers@) == Ok::<
                Seq<char>,
                RenderError,
            >(spec_join(pre->Ok_0, own->Ok_0)));
        },
    }
}

/// Two resolved nodes that differ at most in the deferred flag.
pub open spec fn spec_same_but_deferred(x: ResolvedItemModel, y: ResolvedItemModel) -> bool {
    &&& x.key == y.key
    &&& x.value == y.value
    &&& x.permission == y.permission
    &&& x.owner == y.owner
    &&& x.path_type == y.path_type
    &&& x.metadata == y.metadata
}

/// The views of a resolved-node vector.
pub open spec fn spec_item_views(v: Seq<ResolvedPathItem>) -> Seq<ResolvedItemModel> {
    v.map(|i: int, it: ResolvedPathItem| it@)
}

/// The declared key a node answers for: the first key, in declaration
/// order, whose final component the node is.
fn node_key(config: &Config, i: usize) -> (r: Option<FieldKey>)
    ensures
        r is Some <==> spec_key_of(config, i as int) is Some,
        r matches Some(k) ==> Some(k@) == spec_key_of(config, i as int),
{
    let n = config.item_map.len();
    let mut j: usize = 0;
    while j < n
        invariant
            n == config.item_map.key_seq().len(),
            j <= n,
            spec_key_of(config, i as int) == spec_key_of_from(config, i as int, j as int),
        decreases n - j,
    {
        let key = config.item_map.key_at(j);
        let id = match config.item_map.get(key) {
            Some(id) => *id,
            None => {
                proof {
                    assert(false);
                }
                0
            },
        };
        if id == i {
            return Some(key.clone());
        }
        j = j + 1;
    }
    None
}

/// Insert one resolved node behind every node whose path is not greater.
fn insert_sorted(v: &mut Vec<ResolvedPathItem>, e: ResolvedPathItem)
    ensures
        spec_item_views(final(v)@) == spec_insert_entry(spec_item_views(old(v)@), e@),
    decreases old(v)@.len(),
{
    if v.len() == 0 {
        let ghost ev = e@;
        v.push(e);
        proof {
            assert(spec_item_views(v@) =~= seq![ev]);
        }
        return ;
    }
    let keep_last: bool = lex_leq(v[v.len() - 1].value(), e.value());
    proof {
        assert(spec_item_views(v@).last() == v@[v@.len() - 1]@);
    }
    if keep_last {
        let ghost before = spec_item_views(v@);
        let ghost ev = e@;
        v.push(e);
        proof {
            assert(spec_item_views(v@) =~= before.push(ev));
        }
    } else {
        let last = match v.pop() {
            Some(x) => x,
            None => {
                proof {
                    assert(false);
                }
                return ;
            },
        };
        proof {
            assert(spec_item_views(v@) =~= spec_item_views(old(v)@).drop_last());
        }
        insert_sorted(v, e);
        let ghost mid = spec_item_views(v@);
        let ghost lv = last@;
        v.push(last);
        proof {
            assert(spec_item_views(v@) =~= mid.push(lv));
        }
    }
}

/// Resolve the whole tree for one field assignment: prune unresolved
/// subtrees, render and join every surviving node's path, resolve inherited
/// attributes and the deferred flags, sort by path, re-propagate
/// deferredness from literal ancestor directories, and drop what stays
/// deferred.
pub fn get_workspace(config: &Config, path_fields: &PathAttributes) -> (r: Result<
    Vec<ResolvedPathItem>,
    Error,
>)
    requires
        config.wf(),
    ensures
        spec_first_render_failure(config, path_fields@, 0) == config.items_model().len() ==> (
        r matches Ok(v) && spec_item_views(v@) == spec_workspace(config, path_fields@)),
        spec_first_render_failure(config, path_fields@, 0) < config.items_model().len() ==> (
        r is Err && spec_render_error_matches(
            spec_render_tokens(
                config.items_model()[spec_first_render_failure(config, path_fields@, 0)].path,
                path_fields@,
                config.resolvers@,
            )->Err_0,
            path_fields@,
            config.resolvers@,
            &r->Err_0,
        )),
{
    let ghost items_m = config.items_model();
    let ghost f = path_fields@;
    let n = config.items.len();
    let mut entries: Vec<Option<ResolvedPathItem>> = Vec::new();
    let mut survivors: Vec<ResolvedPathItem> = Vec::new();
    let mut i: usize = 0;
    proof {
        assert(spec_survivors(items_m, f, 0) =~= Seq::<int>::empty());
        assert(spec_item_views(survivors@) =~= spec_survivors(items_m, f, 0).map(
            |j: int, x: int| spec_entry(config, f, x),
        ));
    }
    while i < n
        invariant
            config.wf(),
            items_m == config.items_model(),
            f == path_fields@,
            n == items_m.len(),
            i <= n,
            entries@.len() == i,
            forall|j: int|
                0 <= j < i ==> ((#[trigger] entries@[j]) is Some <==> spec_chain_resolved(
                    items_m,
                    f,
                    j,
                )),
            forall|j: int|
                0 <= j < i ==> ((#[trigger] entries@[j]) matches Some(e) ==> e@ == spec_entry(
                    config,
                    f,
                    j,
                )),
            spec_first_render_failure(config, f, 0) == spec_first_render_failure(
                config,
                f,
                i as int,
            ),
            spec_item_views(survivors@) == spec_survivors(items_m, f, i as int).map(
                |j: int, x: int| spec_entry(config, f, x),
            ),
        decreases n - i,
    {
        let item = &config.items[i];
        proof {
            assert(items_m[i as int] == item@);
        }
        let resolved_here = item.path.is_resolved_by(path_fields);
        let parent_ok: bool = match item.parent {
            None => true,
            Some(p) => entries[p].is_some(),
        };
        if !(parent_ok && resolved_here) {
            entries.push(None);
            proof {
                assert(!spec_chain_resolved(items_m, f, i as int));
                assert(spec_survivors(items_m, f, i as int + 1) =~= spec_survivors(
                    items_m,
                    f,
                    i as int,
                ));
            }
        } else {
            let mut comp = String::new();
            match item.path.draw(&mut comp, path_fields, &config.resolvers) {
                Err(e) => {
                    proof {
                        assert(spec_chain_resolved(items_m, f, i as int));
                        assert(spec_render_tokens(items_m[i as int].path, f, config.resolvers@)
                            is Err);
                        assert(spec_first_render_failure(config, f, i as int) == i as int);
                    }
                    return Err(e);
                },
                Ok(()) => (),
            }
            let ghost chain = spec_chain(items_m, i as int);
            let mut value: String = match item.parent {
                None => String::new(),
                Some(p) => {
                    match &entries[p] {
                        Some(pe) => pe.value.clone(),
                        None => {
                            proof {
                                assert(false);
                            }
                            String::new()
                        },
                    }
                },
            };
            join_component(&mut value, comp.as_str());
            proof {
                assert(spec_chain_resolved(items_m, f, i as int));
                assert(!(spec_render_tokens(items_m[i as int].path, f, config.resolvers@)
                    is Err));
                assert forall|j: int|
                    0 <= j <= i && spec_chain_resolved(items_m, f, j) implies !(
                spec_render_tokens((#[trigger] items_m[j]).path, f, config.resolvers@) is Err) by {
                    if j < i && spec_chain_resolved(items_m, f, j) && spec_render_tokens(
                        items_m[j].path,
                        f,
                        config.resolvers@,
                    ) is Err {
                        lemma_first_failure_le(config, f, 0, j);
                        lemma_first_failure_ge(config, f, i as int);
                    }
                }
                assert(spec_render_tokens(items_m[i as int].path, f, config.resolvers@) is Ok);
                assert(comp@ == spec_render_tokens(
                    items_m[i as int].path,
                    f,
                    config.resolvers@,
                )->Ok_0) by {
                    assert(Seq::<char>::empty() + spec_render_tokens(
                        items_m[i as int].path,
                        f,
                        config.resolvers@,
                    )->Ok_0 =~= spec_render_tokens(
                        items_m[i as int].path,
                        f,
                        config.resolvers@,
                    )->Ok_0);
                }
                lemma_render_chain_ok(config, f, i as int);
                match items_m[i as int].parent {
                    Some(p) => {
                        assert(entries@[p as int] matches Some(pe2) && pe2@ == spec_entry(
                            config,
                            f,
                            p as int,
                        ));
                    },
                    None => (),
                }
                assert(spec_render_chain(items_m, chain, f, config.resolvers@) == Ok::<
                    Seq<char>,
                    RenderError,
                >(value@));
            }
            let permission: Permission = match item.parent {
                None => item.permission,
                Some(p) => {
                    if item.permission == Permission::Inherit {
                        match &entries[p] {
                            Some(pe) => pe.permission,
                            None => item.permission,
                        }
                    } else {
                        item.permission
                    }
                },
            };
            let owner: Owner = match item.parent {
                None => item.owner,
                Some(p) => {
                    if item.owner == Owner::Inherit {
                        match &entries[p] {
                            Some(pe) => pe.owner,
                            None => item.owner,
                        }
                    } else {
                        item.owner
                    }
                },
            };
            let parent_deferred: bool = match item.parent {
                None => false,
                Some(p) => {
                    match &entries[p] {
                        Some(pe) => pe.deferred,
                        None => false,
                    }
                },
            };
            let deferred: bool = if item.deferred && item.path.has_variable_tokens()
                && resolved_here {
                false
            } else {
                item.deferred || parent_deferred
            };
            let key = node_key(config, i);
            let entry = ResolvedPathItem {
                key,
                value,
                permission,
                owner,
                path_type: item.path_type,
                deferred,
                metadata: share_arc(&item.metadata),
            };
            proof {
                assert(entry@ == spec_entry(config, f, i as int));
            }
            let ghost sv_before = spec_item_views(survivors@);
            survivors.push(entry.clone());
            entries.push(Some(entry));
            proof {
                assert(spec_chain_resolved(items_m, f, i as int));
                assert(spec_survivors(items_m, f, i as int + 1) =~= spec_survivors(
                    items_m,
                    f,
                    i as int,
                ).push(i as int));
                assert(spec_item_views(survivors@) =~= sv_before.push(
                    spec_entry(config, f, i as int),
                ));
                assert(spec_item_views(survivors@) =~= spec_survivors(
                    items_m,
                    f,
                    i as int + 1,
                ).map(|j: int, x: int| spec_entry(config, f, x)));
            }
        }
        i = i + 1;
    }
    let ghost pre = spec_item_views(survivors@);
    let mut sorted: Vec<ResolvedPathItem> = Vec::new();
    let mut k: usize = 0;
    proof {
        assert(pre.take(0) =~= Seq::<ResolvedItemModel>::empty());
        assert(spec_item_views(sorted@) =~= spec_sort_entries(pre.take(0)));
    }
    while k < survivors.len()
        invariant
            k <= survivors@.len(),
            pre == spec_item_views(survivors@),
            spec_item_views(sorted@) == spec_sort_entries(pre.take(k as int)),
        decreases survivors@.len() - k,
    {
        proof {
            assert(pre.take(k as int + 1).drop_last() =~= pre.take(k as int));
            assert(pre.take(k as int + 1).last() == pre[k as int]);
            assert(pre[k as int] == survivors@[k as int]@);
        }
        insert_sorted(&mut sorted, survivors[k].clone());
        k = k + 1;
    }
    proof {
        assert(pre.take(pre.len() as int) =~= pre);
    }
    let ghost base = spec_item_views(sorted@);
    let sn = sorted.len();
    let mut a: usize = 0;
    while a < sn
        invariant
            sn == sorted@.len(),
            a <= sn,
            base.len() == sn,
            forall|b: int|
                0 <= b < sn ==> spec_same_but_deferred(
                    #[trigger] spec_item_views(sorted@)[b],
                    base[b],
                ),
            forall|b: int|
                0 <= b < a ==> (#[trigger] spec_item_views(sorted@)[b]).deferred
                    == spec_final_deferred(base, b),
            forall|b: int|
                a <= b < sn ==> ((#[trigger] spec_item_views(sorted@)[b]).deferred == (
                base[b].deferred || exists|x: int|
                    0 <= x < a && spec_is_ancestor((#[trigger] base[x]).value, base[b].value)
                        && spec_final_deferred(base, x))),
        decreases sn - a,
    {
        proof {
            assert(spec_item_views(sorted@)[a as int].deferred == spec_final_deferred(
                base,
                a as int,
            )) by {
                assert(spec_item_views(sorted@)[a as int].deferred == (base[a as int].deferred
                    || exists|x: int|
                    0 <= x < a && spec_is_ancestor((#[trigger] base[x]).value, base[a as int].value)
                        && spec_final_deferred(base, x)));
            }
        }
        let mut b: usize = a + 1;
        while b < sn
            invariant
                sn == sorted@.len(),
                a < sn,
                a + 1 <= b <= sn,
                base.len() == sn,
                forall|c: int|
                    0 <= c < sn ==> spec_same_but_deferred(
                        #[trigger] spec_item_views(sorted@)[c],
                        base[c],
                    ),
                forall|c: int|
                    0 <= c <= a ==> (#[trigger] spec_item_views(sorted@)[c]).deferred
                        == spec_final_deferred(base, c),
                forall|c: int|
                    a < c < b ==> ((#[trigger] spec_item_views(sorted@)[c]).deferred == (
                    base[c].deferred || exists|x: int|
                        0 <= x < a + 1 && spec_is_ancestor(
                            (#[trigger] base[x]).value,
                            base[c].value,
                        ) && spec_final_deferred(base, x))),
                forall|c: int|
                    b <= c < sn ==> ((#[trigger] spec_item_views(sorted@)[c]).deferred == (
                    base[c].deferred || exists|x: int|
                        0 <= x < a && spec_is_ancestor(
                            (#[trigger] base[x]).value,
                            base[c].value,
                        ) && spec_final_deferred(base, x))),
            decreases sn - b,
        {
            let anc = is_ancestor_path(sorted[a].value(), sorted[b].value());
            let force = anc && sorted[a].deferred() && !sorted[b].deferred();
            proof {
                assert(spec_item_views(sorted@)[a as int] == sorted@[a as int]@);
                assert(spec_item_views(sorted@)[b as int] == sorted@[b as int]@);
            }
            if force {
                let mut updated = sorted[b].clone();
                updated.deferred = true;
                let ghost prevs = sorted@;
                sorted.set(b, updated);
                proof {
                    assert forall|c: int| 0 <= c < sn implies #[trigger] spec_item_views(
                        sorted@,
                    )[c] == (if c == b {
                        ResolvedItemModel { deferred: true, ..spec_item_views(prevs)[b as int] }
                    } else {
                        spec_item_views(prevs)[c]
                    }) by {
                        if c != b {
                            assert(sorted@[c] == prevs[c]);
                        } else {
                            assert(sorted@[c]@ == updated@);
                        }
                    }
                }
            }
            b = b + 1;
        }
        a = a + 1;
    }
    let mut out: Vec<ResolvedPathItem> = Vec::new();
    let mut d: usize = 0;
    proof {
        assert(spec_item_views(out@) =~= spec_drop_deferred(base, 0));
    }
    while d < sn
        invariant
            sn == sorted@.len(),
            d <= sn,
            base.len() == sn,
            forall|c: int|
                0 <= c < sn ==> spec_same_but_deferred(
                    #[trigger] spec_item_views(sorted@)[c],
                    base[c],
                ),
            forall|c: int|
                0 <= c < sn ==> (#[trigger] spec_item_views(sorted@)[c]).deferred
                    == spec_final_deferred(base, c),
            spec_item_views(out@) == spec_drop_deferred(base, d as int),
        decreases sn - d,
    {
        proof {
            assert(spec_item_views(sorted@)[d as int] == sorted@[d as int]@);
        }
        if !sorted[d].deferred() {
            let ghost before = spec_item_views(out@);
            out.push(sorted[d].clone());
            proof {
                assert(!spec_final_deferred(base, d as int));
                assert(base[d as int].deferred == false);
                assert(sorted@[d as int]@ == base[d as int]);
                assert(spec_item_views(out@) =~= before.push(base[d as int]));
            }
        } else {
            proof {
                assert(spec_final_deferred(base, d as int));
            }
        }
        d = d + 1;
    }
    proof {
        assert(spec_first_render_failure(config, f, n as int) == items_m.len());
        assert(spec_item_views(out@) == spec_workspace(config, f));
    }
    Ok(out)
}

/// The surviving indices are exactly the nodes whose whole chain resolves.
pub proof fn lemma_survivors_member(
    items: Seq<PathItemModel>,
    fields: Map<Seq<char>, PathValueModel>,
    n: int,
    i: int,
)
    requires
        0 <= n,
    ensures
        spec_survivors(items, fields, n).contains(i) <==> (0 <= i < n && spec_chain_resolved(
            items,
            fields,
            i,
        )),
    decreases n,
{
    if n > 0 {
        lemma_survivors_member(items, fields, n - 1, i);
        if spec_chain_resolved(items, fields, n - 1) {
            let s = spec_survivors(items, fields, n - 1);
            assert(spec_survivors(items, fields, n) == s.push(n - 1));
            if 0 <= i < n && spec_chain_resolved(items, fields, i) {
                if i == n - 1 {
                    assert(s.push(n - 1).last() == i);
                    assert(s.push(n - 1).contains(i));
                } else {
                    let w = choose|w: int| 0 <= w < s.len() && s[w] == i;
                    assert(s.push(n - 1)[w] == i);
                }
            }
            if s.push(n - 1).contains(i) {
                let w = choose|w: int|
                    0 <= w < s.push(n - 1).len() && #[trigger] s.push(n - 1)[w] == i;
                if w < s.len() {
                    assert(s[w] == i);
                }
            }
        }
    }
}

/// A node whose own placeholders the fields do not cover never survives:
/// no workspace entry is built from it.
pub proof fn lemma_unresolved_never_survives(
    items: Seq<PathItemModel>,
    fields: Map<Seq<char>, PathValueModel>,
    n: int,
    i: int,
)
    requires
        0 <= n,
        0 <= i < items.len(),
        items.len() >= n,
        spec_items_wf(items),
        !spec_tokens_resolved_by(items[i].path, fields),
    ensures
        !spec_survivors(items, fields, n).contains(i),
{
    lemma_survivors_member(items, fields, n, i);
    if 0 <= i < n {
        assert(!spec_chain_resolved(items, fields, i));
    }
}

/// Deep specificity beats shallow laziness: a node declared deferred whose
/// own placeholders all resolve is effectively not deferred, whatever its
/// ancestors are.
pub proof fn lemma_resolved_overrides_deferred(
    items: Seq<PathItemModel>,
    fields: Map<Seq<char>, PathValueModel>,
    i: int,
)
    requires
        0 <= i < items.len(),
        spec_items_wf(items),
        items[i].deferred,
        spec_has_variables(items[i].path),
        spec_tokens_resolved_by(items[i].path, fields),
    ensures
        !spec_eff_deferred(items, fields, i),
{
}

/// The post-sort scan re-suppresses: a node below a deferred literal
/// ancestor directory ends up deferred itself, and is therefore dropped.
pub proof fn lemma_deferred_ancestor_suppresses(s: Seq<ResolvedItemModel>, a: int, b: int)
    requires
        0 <= a < b < s.len(),
        spec_is_ancestor(s[a].value, s[b].value),
        spec_final_deferred(s, a),
    ensures
        spec_final_deferred(s, b),
{
}

/// A path-sorted sequence of resolved nodes.
pub open spec fn spec_entries_sorted(s: Seq<ResolvedItemModel>) -> bool {
    forall|i: int, j: int|
        0 <= i < j < s.len() ==> spec_lex_leq(#[trigger] s[i].value, #[trigger] s[j].value)
}

/// Inserting into a path-sorted sequence keeps it sorted, and adds nothing
/// but the inserted node.
proof fn lemma_insert_entry_sorted(s: Seq<ResolvedItemModel>, e: ResolvedItemModel)
    requires
        spec_entries_sorted(s),
    ensures
        spec_entries_sorted(spec_insert_entry(s, e)),
        spec_insert_entry(s, e).len() == s.len() + 1,
        forall|i: int|
            0 <= i < spec_insert_entry(s, e).len() ==> (#[trigger] spec_insert_entry(s, e)[i] == e
                || s.contains(spec_insert_entry(s, e)[i])),
    decreases s.len(),
{
    let r = spec_insert_entry(s, e);
    if s.len() == 0 {
        assert(r == seq![e]);
    } else if spec_lex_leq(s.last().value, e.value) {
        assert(r == s.push(e));
        assert forall|i: int, j: int|
            0 <= i < j < r.len() implies spec_lex_leq(
            #[trigger] r[i].value,
            #[trigger] r[j].value,
        ) by {
            if j == r.len() - 1 {
                if i == s.len() - 1 {
                } else {
                    assert(spec_lex_leq(s[i].value, s[s.len() - 1].value));
                    crate::pathtext::lemma_lex_trans(s[i].value, s.last().value, e.value);
                }
            }
        }
        assert forall|i: int| 0 <= i < r.len() implies (#[trigger] r[i] == e || s.contains(
            r[i],
        )) by {
            if i < s.len() {
                assert(r[i] == s[i]);
            }
        }
    } else {
        crate::pathtext::lemma_lex_total(s.last().value, e.value);
        assert(spec_lex_leq(e.value, s.last().value));
        let d = s.drop_last();
        assert(spec_entries_sorted(d)) by {
            assert(forall|i: int, j: int|
                0 <= i < j < d.len() ==> spec_lex_leq(
                    (#[trigger] d[i]).value,
                    (#[trigger] d[j]).value,
                ));
        }
        lemma_insert_entry_sorted(d, e);
        let m = spec_insert_entry(d, e);
        assert(r == m.push(s.last()));
        assert forall|i: int, j: int|
            0 <= i < j < r.len() implies spec_lex_leq(
            #[trigger] r[i].value,
            #[trigger] r[j].value,
        ) by {
            if j == r.len() - 1 {
                assert(r[i] == m[i]);
                if m[i] == e {
                } else {
                    let w = choose|w: int| 0 <= w < d.len() && #[trigger] d[w] == m[i];
                    assert(s[w] == d[w]);
                    assert(spec_lex_leq(s[w].value, s.last().value)) by {
                        crate::pathtext::lemma_lex_total(s[w].value, s[w].value);
                        if w < s.len() - 1 {
                        } else {
                        }
                    }
                }
            } else {
                assert(r[i] == m[i] && r[j] == m[j]);
            }
        }
        assert forall|i: int| 0 <= i < r.len() implies (#[trigger] r[i] == e || s.contains(
            r[i],
        )) by {
            if i < r.len() - 1 {
                assert(r[i] == m[i]);
                if m[i] != e {
                    let w = choose|w: int| 0 <= w < d.len() && #[trigger] d[w] == m[i];
                    assert(s[w] == m[i]);
                }
            } else {
                assert(r[i] == s[s.len() - 1]);
            }
        }
    }
}

/// Sorting yields a path-sorted sequence.
proof fn lemma_sort_entries_sorted(s: Seq<ResolvedItemModel>)
    ensures
        spec_entries_sorted(spec_sort_entries(s)),
    decreases s.len(),
{
    if s.len() > 0 {
        lemma_sort_entries_sorted(s.drop_last());
        lemma_insert_entry_sorted(spec_sort_entries(s.drop_last()), s.last());
    }
}

/// Dropping the deferred nodes keeps the order: every kept node comes from
/// the sorted sequence.
proof fn lemma_drop_deferred_sorted(s: Seq<ResolvedItemModel>, n: int)
    requires
        spec_entries_sorted(s),
        0 <= n <= s.len(),
    ensures
        spec_entries_sorted(spec_drop_deferred(s, n)),
        forall|i: int|
            0 <= i < spec_drop_deferred(s, n).len() ==> exists|w: int|
                0 <= w < n && #[trigger] spec_drop_deferred(s, n)[i] == s[w],
    decreases n,
{
    if n > 0 {
        lemma_drop_deferred_sorted(s, n - 1);
        let prev = spec_drop_deferred(s, n - 1);
        let cur = spec_drop_deferred(s, n);
        if !spec_final_deferred(s, n - 1) {
            assert(cur == prev.push(s[n - 1]));
            assert forall|i: int| 0 <= i < cur.len() implies exists|w: int|
                0 <= w < n && #[trigger] cur[i] == s[w] by {
                if i < prev.len() {
                    assert(cur[i] == prev[i]);
                    let w = choose|w: int| 0 <= w < n - 1 && #[trigger] prev[i] == s[w];
                    assert(cur[i] == s[w]);
                } else {
                    assert(cur[i] == s[n - 1]);
                }
            }
            assert(spec_entries_sorted(cur)) by {
                assert forall|i: int, j: int|
                    0 <= i < j < cur.len() implies spec_lex_leq(
                    #[trigger] cur[i].value,
                    #[trigger] cur[j].value,
                ) by {
                    if j < prev.len() {
                        assert(cur[i] == prev[i] && cur[j] == prev[j]);
                    } else {
                        assert(cur[j] == s[n - 1]);
                        assert(cur[i] == prev[i]);
                        let w = choose|w: int| 0 <= w < n - 1 && #[trigger] prev[i] == s[w];
                        if w < n - 1 {
                            assert(spec_lex_leq(s[w].value, s[n - 1].value));
                        }
                        crate::pathtext::lemma_lex_total(s[w].value, s[w].value);
                    }
                }
            }
        } else {
            assert(cur == prev);
        }
    }
}

/// The workspace output is sorted by path: together with the exact contract
/// of `get_workspace`, two calls with equal inputs yield the same,
/// path-ordered nodes.
pub proof fn lemma_workspace_sorted(c: &Config, fields: Map<Seq<char>, PathValueModel>)
    ensures
        spec_entries_sorted(spec_workspace(c, fields)),
{
    let pre = spec_survivors(c.items_model(), fields, c.items_model().len() as int).map(
        |j: int, i: int| spec_entry(c, fields, i),
    );
    let sorted = spec_sort_entries(pre);
    lemma_sort_entries_sorted(pre);
    lemma_drop_deferred_sorted(sorted, sorted.len() as int);
}

/// Dispatch one planned workspace to a caller-supplied I/O function:
/// `get_workspace` decides the nodes, then every node is handed to
/// `io_function` grouped by its parent directory, parents-first, so that a
/// directory is always dispatched before anything inside it.  The first
/// failure reported by the I/O function stops the dispatch and is returned;
/// nodes already dispatched are not rolled back.
pub fn create_workspace<F: Fn(&Config, &ResolvedPathItem, &crate::TemplateAttributes) -> Result<
    (),
    Error,
>>(
    config: &Config,
    path_fields: &PathAttributes,
    template_fields: &crate::TemplateAttributes,
    io_function: F,
) -> (r: Result<(), Error>)
    requires
        config.wf(),
        forall|c: &Config, n: &ResolvedPathItem, t: &crate::TemplateAttributes|
            call_requires(io_function, (c, n, t)),
    ensures
        spec_first_render_failure(config, path_fields@, 0) < config.items_model().len() ==> (
        r is Err && spec_render_error_matches(
            spec_render_tokens(
                config.items_model()[spec_first_render_failure(config, path_fields@, 0)].path,
                path_fields@,
                config.resolvers@,
            )->Err_0,
            path_fields@,
            config.resolvers@,
            &r->Err_0,
        )),
        (spec_first_render_failure(config, path_fields@, 0) == config.items_model().len() && (
        forall|args: (&Config, &ResolvedPathItem, &crate::TemplateAttributes), ret: Result<
            (),
            Error,
        >| call_ensures(io_function, args, ret) ==> ret is Ok)) ==> r is Ok,
        spec_first_render_failure(config, path_fields@, 0) == config.items_model().len()
            && spec_workspace(config, path_fields@).len() == 0 ==> r is Ok,
        r matches Err(e) ==> spec_first_render_failure(config, path_fields@, 0)
            < config.items_model().len() || (exists|
            args: (&Config, &ResolvedPathItem, &crate::TemplateAttributes),
        |
            #[trigger] call_ensures(io_function, args, Err(e))),
        (spec_first_render_failure(config, path_fields@, 0) == config.items_model().len()
            && spec_workspace(config, path_fields@).len() > 0 && (forall|
            args: (&Config, &ResolvedPathItem, &crate::TemplateAttributes),
            ret: Result<(), Error>,
        |
            call_ensures(io_function, args, ret) ==> ret is Err)) ==> r is Err,
{
    let items = match get_workspace(config, path_fields) {
        Ok(items) => items,
        Err(e) => {
            proof {
                lemma_first_failure_ge(config, path_fields@, 0);
            }
            return Err(e);
        },
    };
    proof {
        lemma_first_failure_ge(config, path_fields@, 0);
        assert(spec_first_render_failure(config, path_fields@, 0) == config.items_model().len());
    }
    let mut group_keys: Vec<Option<String>> = Vec::new();
    let mut i: usize = 0;
    while i < items.len()
        invariant
            i <= items@.len(),
            spec_item_views(items@) == spec_workspace(config, path_fields@),
            forall|ii: int|
                0 <= ii < i ==> spec_key_views_of(group_keys@).contains(
                    spec_parent_dir(#[trigger] spec_item_views(items@)[ii].value),
                ),
        decreases items@.len() - i,
    {
        let parent = crate::pathtext::parent_dir(items[i].value());
        let ghost pv = spec_opt_dir(parent);
        proof {
            assert(pv == spec_parent_dir(spec_item_views(items@)[i as int].value));
        }
        let mut seen = false;
        let mut g: usize = 0;
        while g < group_keys.len()
            invariant
                g <= group_keys@.len(),
                pv == spec_opt_dir(parent),
                seen ==> spec_key_views_of(group_keys@).contains(pv),
            decreases group_keys@.len() - g,
        {
            let same = opt_str_equal(&group_keys[g], &parent);
            if same {
                proof {
                    assert(spec_key_views_of(group_keys@)[g as int] == pv);
                }
                seen = true;
            }
            g = g + 1;
        }
        if !seen {
            let ghost before = spec_key_views_of(group_keys@);
            group_keys.push(parent);
            proof {
                assert(spec_key_views_of(group_keys@) =~= before.push(pv));
                assert(spec_key_views_of(group_keys@)[before.len() as int] == pv);
                assert forall|y: Option<Seq<char>>| #[trigger] before.contains(y) implies
                    spec_key_views_of(group_keys@).contains(y) by {
                    let w = choose|w: int| 0 <= w < before.len() && before[w] == y;
                    assert(spec_key_views_of(group_keys@)[w] == y);
                }
            }
        }
        i = i + 1;
    }
    let ghost pre_sort = spec_key_views_of(group_keys@);
    let group_keys = sort_group_keys(group_keys);
    proof {
        assert forall|ii: int| 0 <= ii < items@.len() implies spec_key_views_of(
            group_keys@,
        ).contains(spec_parent_dir(#[trigger] spec_item_views(items@)[ii].value)) by {
            lemma_sort_keys_membership(
                pre_sort,
                spec_parent_dir(spec_item_views(items@)[ii].value),
            );
        }
    }
    let mut g: usize = 0;
    while g < group_keys.len()
        invariant
            g <= group_keys@.len(),
            spec_first_render_failure(config, path_fields@, 0) == config.items_model().len(),
            config.wf(),
            spec_item_views(items@) == spec_workspace(config, path_fields@),
            forall|ii: int|
                0 <= ii < items@.len() ==> spec_key_views_of(group_keys@).contains(
                    spec_parent_dir(#[trigger] spec_item_views(items@)[ii].value),
                ),
            forall|c: &Config, n: &ResolvedPathItem, t: &crate::TemplateAttributes|
                call_requires(io_function, (c, n, t)),
            forall|args: (&Config, &ResolvedPathItem, &crate::TemplateAttributes), ret: Result<
                (),
                Error,
            >| #[trigger] call_ensures(io_function, args, ret) ==> (forall|
                args2: (&Config, &ResolvedPathItem, &crate::TemplateAttributes),
                ret2: Result<(), Error>,
            | call_ensures(io_function, args2, ret2) ==> ret2 is Ok) ==> ret is Ok,
            (forall|
                args: (&Config, &ResolvedPathItem, &crate::TemplateAttributes),
                ret: Result<(), Error>,
            | call_ensures(io_function, args, ret) ==> ret is Err) ==> (forall|gi: int, ii: int|
                #![trigger spec_key_views_of(group_keys@)[gi], spec_item_views(items@)[ii]]
                0 <= gi < g && 0 <= ii < items@.len() ==> spec_key_views_of(group_keys@)[gi]
                    != spec_parent_dir(spec_item_views(items@)[ii].value)),
        decreases group_keys@.len() - g,
    {
        let mut i: usize = 0;
        while i < items.len()
            invariant
                i <= items@.len(),
                g < group_keys@.len(),
                spec_first_render_failure(config, path_fields@, 0) == config.items_model().len(),
                config.wf(),
                spec_item_views(items@) == spec_workspace(config, path_fields@),
                forall|c: &Config, n: &ResolvedPathItem, t: &crate::TemplateAttributes|
                    call_requires(io_function, (c, n, t)),
                (forall|
                    args: (&Config, &ResolvedPathItem, &crate::TemplateAttributes),
                    ret: Result<(), Error>,
                | call_ensures(io_function, args, ret) ==> ret is Err) ==> (forall|
                    gi: int,
                    ii: int,
                |
                    #![trigger spec_key_views_of(group_keys@)[gi], spec_item_views(items@)[ii]]
                    0 <= gi < g && 0 <= ii < items@.len() ==> spec_key_views_of(group_keys@)[gi]
                        != spec_parent_dir(spec_item_views(items@)[ii].value)),
                (forall|
                    args: (&Config, &ResolvedPathItem, &crate::TemplateAttributes),
                    ret: Result<(), Error>,
                | call_ensures(io_function, args, ret) ==> ret is Err) ==> (forall|ii: int|
                    0 <= ii < i ==> spec_key_views_of(group_keys@)[g as int] != spec_parent_dir(
                        #[trigger] spec_item_views(items@)[ii].value,
                    )),
            decreases items@.len() - i,
        {
            let parent = crate::pathtext::parent_dir(items[i].value());
            let ghost pv = spec_opt_dir(parent);
            proof {
                assert(pv == spec_parent_dir(spec_item_views(items@)[i as int].value));
            }
            let matched = opt_str_equal(&group_keys[g], &parent);
            if matched {
                let item_ref = &items[i];
                let res = io_function(config, item_ref, template_fields);
                let ghost gres = res;
                proof {
                    assert(call_ensures(io_function, (config, item_ref, template_fields), gres));
                }
                match res {
                    Ok(()) => {
                        proof {
                            assert(gres is Ok);
                            assert(!(forall|
                                args: (&Config, &ResolvedPathItem, &crate::TemplateAttributes),
                                ret: Result<(), Error>,
                            | call_ensures(io_function, args, ret) ==> ret is Err));
                        }
                    },
                    Err(e) => {
                        proof {
                            assert(gres == Err::<(), Error>(e));
                            assert(call_ensures(
                                io_function,
                                (config, item_ref, template_fields),
                                Err(e),
                            ));
                            assert(spec_workspace(config, path_fields@).len() > 0) by {
                                assert(spec_item_views(items@).len() == items@.len());
                            }
                        }
                        return Err(e);
                    },
                }
            } else {
                proof {
                    assert(spec_key_views_of(group_keys@)[g as int] != pv);
                }
            }
            i = i + 1;
        }
        g = g + 1;
    }
    proof {
        if (forall|
            args: (&Config, &ResolvedPathItem, &crate::TemplateAttributes),
            ret: Result<(), Error>,
        | call_ensures(io_function, args, ret) ==> ret is Err) && spec_workspace(
            config,
            path_fields@,
        ).len() > 0 {
            assert(spec_item_views(items@).len() == items@.len());
            let p0 = spec_parent_dir(spec_item_views(items@)[0].value);
            assert(spec_key_views_of(group_keys@).contains(p0));
            let gi = choose|gi: int|
                0 <= gi < spec_key_views_of(group_keys@).len() && spec_key_views_of(
                    group_keys@,
                )[gi] == p0;
            assert(spec_key_views_of(group_keys@)[gi] != p0);
            assert(false);
        }
    }
    Ok(())
}

/// Compare two optional parent directories.
fn opt_str_equal(a: &Option<String>, b: &Option<String>) -> (r: bool)
    ensures
        r == (match (a, b) {
            (Some(x), Some(y)) => x@ == y@,
            (None, None) => true,
            _ => false,
        }),
{
    match (a, b) {
        (Some(x), Some(y)) => crate::chars::str_equal(x.as_str(), y.as_str()),
        (None, None) => true,
        _ => false,
    }
}

/// Whether one optional parent directory sorts no later than another: a
/// missing parent (the root itself) comes first, the rest are in path
/// order, so an ancestor directory always comes before its descendants.
fn opt_str_leq(a: &Option<String>, b: &Option<String>) -> (r: bool)
    ensures
        r == (match (a, b) {
            (None, _) => true,
            (Some(_), None) => false,
            (Some(x), Some(y)) => spec_lex_leq(x@, y@),
        }),
{
    match (a, b) {
        (None, _) => true,
        (Some(_), None) => false,
        (Some(x), Some(y)) => lex_leq(x.as_str(), y.as_str()),
    }
}

/// The view of an optional parent directory.
pub open spec fn spec_opt_dir(a: Option<String>) -> Option<Seq<char>> {
    match a {
        Some(x) => Some(x@),
        None => None,
    }
}

/// Whether one optional parent directory sorts no later than another, in
/// specification form.
pub open spec fn spec_opt_leq(a: Option<Seq<char>>, b: Option<Seq<char>>) -> bool {
    match a {
        None => true,
        Some(x) => match b {
            None => false,
            Some(y) => spec_lex_leq(x, y),
        },
    }
}

/// Insert one group key behind every key that sorts no later.
pub open spec fn spec_insert_key(
    sorted: Seq<Option<Seq<char>>>,
    e: Option<Seq<char>>,
) -> Seq<Option<Seq<char>>>
    decreases sorted.len(),
{
    if sorted.len() == 0 {
        seq![e]
    } else if spec_opt_leq(sorted.last(), e) {
        sorted.push(e)
    } else {
        spec_insert_key(sorted.drop_last(), e).push(sorted.last())
    }
}

/// Stable insertion sort of the group keys, missing parent first, then path
/// order, so an ancestor directory's group always precedes its descendants'.
pub open spec fn spec_sort_keys(s: Seq<Option<Seq<char>>>) -> Seq<Option<Seq<char>>>
    decreases s.len(),
{
    if s.len() == 0 {
        Seq::empty()
    } else {
        spec_insert_key(spec_sort_keys(s.drop_last()), s.last())
    }
}

/// Inserting a group key adds exactly that key to the members.
proof fn lemma_insert_key_membership(
    sorted: Seq<Option<Seq<char>>>,
    e: Option<Seq<char>>,
    x: Option<Seq<char>>,
)
    ensures
        spec_insert_key(sorted, e).contains(x) <==> (sorted.contains(x) || x == e),
    decreases sorted.len(),
{
    if sorted.len() == 0 {
        assert(spec_insert_key(sorted, e) == seq![e]);
        assert(seq![e][0] == e);
    } else if spec_opt_leq(sorted.last(), e) {
        let pushed = sorted.push(e);
        assert forall|y: Option<Seq<char>>| #[trigger] pushed.contains(y) implies sorted.contains(
            y,
        ) || y == e by {
            let i = choose|i: int| 0 <= i < pushed.len() && pushed[i] == y;
            if i < sorted.len() {
                assert(sorted[i] == y);
            }
        }
        if sorted.contains(x) {
            let i = choose|i: int| 0 <= i < sorted.len() && sorted[i] == x;
            assert(pushed[i] == x);
        }
        assert(pushed[sorted.len() as int] == e);
    } else {
        lemma_insert_key_membership(sorted.drop_last(), e, x);
        let inner = spec_insert_key(sorted.drop_last(), e);
        let pushed = inner.push(sorted.last());
        assert forall|y: Option<Seq<char>>| #[trigger] pushed.contains(y) implies inner.contains(y)
            || y == sorted.last() by {
            let i = choose|i: int| 0 <= i < pushed.len() && pushed[i] == y;
            if i < inner.len() {
                assert(inner[i] == y);
            }
        }
        if inner.contains(x) {
            let i = choose|i: int| 0 <= i < inner.len() && inner[i] == x;
            assert(pushed[i] == x);
        }
        assert(pushed[inner.len() as int] == sorted.last());
        assert forall|y: Option<Seq<char>>| #[trigger] sorted.contains(y) implies
            sorted.drop_last().contains(y) || y == sorted.last() by {
            let i = choose|i: int| 0 <= i < sorted.len() && sorted[i] == y;
            if i < sorted.len() - 1 {
                assert(sorted.drop_last()[i] == y);
            }
        }
        if sorted.drop_last().contains(x) {
            let i = choose|i: int| 0 <= i < sorted.drop_last().len() && sorted.drop_last()[i] == x;
            assert(sorted[i] == x);
        }
        assert(sorted[sorted.len() - 1] == sorted.last());
    }
}

/// Sorting the group keys keeps exactly the same members.
proof fn lemma_sort_keys_membership(s: Seq<Option<Seq<char>>>, x: Option<Seq<char>>)
    ensures
        spec_sort_keys(s).contains(x) <==> s.contains(x),
    decreases s.len(),
{
    if s.len() > 0 {
        lemma_sort_keys_membership(s.drop_last(), x);
        lemma_insert_key_membership(spec_sort_keys(s.drop_last()), s.last(), x);
        assert forall|y: Option<Seq<char>>| #[trigger] s.contains(y) implies s.drop_last().contains(
            y,
        ) || y == s.last() by {
            let i = choose|i: int| 0 <= i < s.len() && s[i] == y;
            if i < s.len() - 1 {
                assert(s.drop_last()[i] == y);
            }
        }
        if s.drop_last().contains(x) {
            let i = choose|i: int| 0 <= i < s.drop_last().len() && s.drop_last()[i] == x;
            assert(s[i] == x);
        }
        assert(s[s.len() - 1] == s.last());
    }
}

/// The views of a group-key vector.
pub open spec fn spec_key_views_of(v: Seq<Option<String>>) -> Seq<Option<Seq<char>>> {
    v.map(|i: int, a: Option<String>| spec_opt_dir(a))
}

fn insert_key_sorted(v: &mut Vec<Option<String>>, e: Option<String>)
    ensures
        spec_key_views_of(final(v)@) == spec_insert_key(
            spec_key_views_of(old(v)@),
            spec_opt_dir(e),
        ),
    decreases old(v)@.len(),
{
    if v.len() == 0 {
        let ghost ev = spec_opt_dir(e);
        v.push(e);
        proof {
            assert(spec_key_views_of(v@) =~= seq![ev]);
        }
        return ;
    }
    let keep_last: bool = opt_str_leq(&v[v.len() - 1], &e);
    proof {
        assert(spec_key_views_of(v@).last() == spec_opt_dir(v@[v@.len() - 1]));
    }
    if keep_last {
        let ghost before = spec_key_views_of(v@);
        let ghost ev = spec_opt_dir(e);
        v.push(e);
        proof {
            assert(spec_key_views_of(v@) =~= before.push(ev));
        }
    } else {
        let last = match v.pop() {
            Some(x) => x,
            None => {
                proof {
                    assert(false);
                }
                return ;
            },
        };
        proof {
            assert(spec_key_views_of(v@) =~= spec_key_views_of(old(v)@).drop_last());
        }
        insert_key_sorted(v, e);
        let ghost mid = spec_key_views_of(v@);
        let ghost lv = spec_opt_dir(last);
        v.push(last);
        proof {
            assert(spec_key_views_of(v@) =~= mid.push(lv));
        }
    }
}

/// Sort the parent-directory group keys: missing parent first, then path
/// order.
fn sort_group_keys(keys: Vec<Option<String>>) -> (r: Vec<Option<String>>)
    ensures
        spec_key_views_of(r@) == spec_sort_keys(spec_key_views_of(keys@)),
{
    let ghost pre = spec_key_views_of(keys@);
    let mut out: Vec<Option<String>> = Vec::new();
    let mut k: usize = 0;
    proof {
        assert(pre.take(0) =~= Seq::<Option<Seq<char>>>::empty());
        assert(spec_key_views_of(out@) =~= spec_sort_keys(pre.take(0)));
    }
    while k < keys.len()
        invariant
            k <= keys@.len(),
            pre == spec_key_views_of(keys@),
            spec_key_views_of(out@) == spec_sort_keys(pre.take(k as int)),
        decreases keys@.len() - k,
    {
        proof {
            assert(pre.take(k as int + 1).drop_last() =~= pre.take(k as int));
            assert(pre.take(k as int + 1).last() == pre[k as int]);
            assert(pre[k as int] == spec_opt_dir(keys@[k as int]));
        }
        let e: Option<String> = match &keys[k] {
            Some(x) => Some(x.clone()),
            None => None,
        };
        insert_key_sorted(&mut out, e);
        k = k + 1;
    }
    proof {
        assert(pre.take(pre.len() as int) =~= pre);
    }
    out
}

} // verus!
