//! The immutable path-template tree and its builder.
//!
//! The builder collects named path-item declarations, resolver declarations
//! and content templates.  `build` checks that no item's parent chain loops,
//! that every named parent exists and that every path component parses, then
//! flattens the declarations into an arena of single-component nodes in which
//! a parent always precedes its children and items reached through the same
//! parent share equal prefix components instead of duplicating them.

use vstd::prelude::*;

use crate::attrs::AttrMap;
use crate::attrs::lemma_distinct_within_len;
use crate::error::Error;
use crate::field_key::FieldKey;
use crate::path_item::Owner;
use crate::path_item::PathItem;
use crate::path_item::PathItemArgs;
use crate::path_item::PathItemArgsModel;
use crate::path_item::PathItemModel;
use crate::path_item::PathType;
use crate::path_item::Permission;
use crate::path_item::share_arc;
use crate::pathtext::spec_components;
use crate::pathtext::split_components;
use crate::resolver::Resolver;
use crate::rx::compile_pattern;
use crate::rx::regex_compiles;
use crate::token::Tokens;
use crate::token::spec_tokenize;
use crate::token::spec_tokenize_error_text;
use crate::token::tokens_equal;
use crate::token::tokens_from_chars;
use crate::value::MetadataMap;
use crate::chars::str_to_chars;
use crate::field_key::spec_lower;
use crate::field_key::spec_valid_key;
use crate::Resolvers;

verus! {

/// A sequence of keys forming a parent cycle: every key is declared and each
/// one's parent is the next, wrapping around at the end.
pub open spec fn spec_is_cycle(
    m: Map<Seq<char>, PathItemArgsModel>,
    c: Seq<Seq<char>>,
) -> bool {
    &&& c.len() > 0
    &&& forall|i: int|
        0 <= i < c.len() ==> m.contains_key(#[trigger] c[i]) && m[c[i]].parent == Some(
            c[
                if i == c.len() - 1 {
                    0int
                } else {
                    i + 1
                }
            ],
        )
}

/// Some declared items form a parent cycle.
pub open spec fn spec_has_parent_cycle(m: Map<Seq<char>, PathItemArgsModel>) -> bool {
    exists|c: Seq<Seq<char>>| spec_is_cycle(m, c)
}

/// A chain of declared keys following parent links that ends at a root: its
/// last key's parent is absent or not declared.
pub open spec fn spec_escaping_chain(
    m: Map<Seq<char>, PathItemArgsModel>,
    cs: Seq<Seq<char>>,
) -> bool {
    &&& cs.len() > 0
    &&& forall|i: int| 0 <= i < cs.len() ==> m.contains_key(#[trigger] cs[i])
    &&& forall|i: int|
        0 <= i < cs.len() - 1 ==> m[#[trigger] cs[i]].parent == Some(cs[i + 1])
    &&& (m[cs[cs.len() - 1]].parent matches Some(p) ==> !m.contains_key(p))
}

/// Every declared parent is itself a declared item.
pub open spec fn spec_parents_present(m: Map<Seq<char>, PathItemArgsModel>) -> bool {
    forall|k: Seq<char>|
        m.contains_key(k) && m[k].parent is Some ==> m.contains_key(
            #[trigger] m[k].parent->0,
        )
}

/// One declared template is usable: it splits into at least one component
/// and every component tokenizes.
pub open spec fn spec_template_ok(path: Seq<char>) -> bool {
    let comps = spec_components(path);
    &&& comps.len() > 0
    &&& forall|j: int| 0 <= j < comps.len() ==> spec_tokenize(#[trigger] comps[j]) is Ok
}

/// Every declared template is usable.
pub open spec fn spec_templates_ok(m: Map<Seq<char>, PathItemArgsModel>) -> bool {
    forall|k: Seq<char>| m.contains_key(k) ==> spec_template_ok(#[trigger] m[k].path)
}

/// Everything `build` checks before a config comes out of it.
pub open spec fn spec_build_accepts(m: Map<Seq<char>, PathItemArgsModel>) -> bool {
    &&& !spec_has_parent_cycle(m)
    &&& spec_parents_present(m)
    &&& spec_templates_ok(m)
}

/// The arena is topologically ordered: every parent stands strictly before
/// its children.
pub open spec fn spec_items_wf(items: Seq<PathItemModel>) -> bool {
    forall|i: int|
        0 <= i < items.len() ==> (#[trigger] items[i].parent matches Some(p) ==> 0 <= p < i)
}

/// The root-first chain of arena indices from a node up to its root.
pub open spec fn spec_chain(items: Seq<PathItemModel>, i: int) -> Seq<int>
    decreases i
        when 0 <= i < items.len() && spec_items_wf(items)
{
    match items[i].parent {
        None => seq![i],
        Some(p) => spec_chain(items, p).push(i),
    }
}

/// The root-first chain of declared keys above (and including) one key:
/// each key's declared parent is the key before it, and the first key has no
/// parent.
pub open spec fn spec_root_chain(
    m: Map<Seq<char>, PathItemArgsModel>,
    kc: Seq<Seq<char>>,
    k: Seq<char>,
) -> bool {
    &&& kc.len() >= 1
    &&& kc[kc.len() - 1] == k
    &&& forall|i: int| 0 <= i < kc.len() ==> m.contains_key(#[trigger] kc[i])
    &&& forall|i: int| 0 < i < kc.len() ==> m[#[trigger] kc[i]].parent == Some(kc[i - 1])
    &&& m[kc[0]].parent is None
}

/// A key has at most one root chain: every link is determined by a declared
/// parent reference, and the chain ends at the first ancestor without one.
pub proof fn lemma_root_chain_unique(
    m: Map<Seq<char>, PathItemArgsModel>,
    a: Seq<Seq<char>>,
    b: Seq<Seq<char>>,
    k: Seq<char>,
)
    requires
        spec_root_chain(m, a, k),
        spec_root_chain(m, b, k),
    ensures
        a == b,
    decreases a.len(),
{
    if a.len() == 1 {
        assert(a[0] == k);
        assert(m[k].parent is None);
        if b.len() > 1 {
            assert(m[b[b.len() - 1]].parent == Some(b[b.len() - 2]));
        }
        assert(b.len() == 1);
        assert(a =~= b);
    } else if b.len() == 1 {
        assert(b[0] == k);
        assert(m[k].parent is None);
        assert(m[a[a.len() - 1]].parent == Some(a[a.len() - 2]));
        assert(false);
    } else {
        let ka = a[a.len() - 2];
        assert(m[k].parent == Some(ka));
        assert(m[k].parent == Some(b[b.len() - 2]));
        let a2 = a.drop_last();
        let b2 = b.drop_last();
        assert(spec_root_chain(m, a2, ka)) by {
            assert(forall|i: int| 0 <= i < a2.len() ==> a2[i] == a[i]);
            assert(a2[a2.len() - 1] == ka);
        }
        assert(spec_root_chain(m, b2, ka)) by {
            assert(forall|i: int| 0 <= i < b2.len() ==> b2[i] == b[i]);
            assert(b2[b2.len() - 1] == ka);
        }
        lemma_root_chain_unique(m, a2, b2, ka);
        assert(a =~= b) by {
            assert(forall|i: int| 0 <= i < a.len() - 1 ==> a[i] == a2[i] && b[i] == b2[i]);
        }
    }
}

/// The flattened components of a chain of declared keys: every key's
/// template components in turn, root first.
pub open spec fn spec_flat_components(
    m: Map<Seq<char>, PathItemArgsModel>,
    kc: Seq<Seq<char>>,
) -> Seq<Seq<char>>
    decreases kc.len(),
{
    if kc.len() == 0 {
        Seq::empty()
    } else {
        spec_flat_components(m, kc.drop_last()) + spec_components(m[kc.last()].path)
    }
}

/// The arena chain from node `i` holds, in order, exactly the tokenizations
/// of `comps`.
pub open spec fn spec_chain_matches(
    items: Seq<PathItemModel>,
    i: int,
    comps: Seq<Seq<char>>,
) -> bool {
    let chain = spec_chain(items, i);
    &&& chain.len() == comps.len()
    &&& forall|t: int|
        0 <= t < comps.len() ==> 0 <= #[trigger] chain[t] < items.len() && items[chain[t]].path
            == spec_tokenize(comps[t])->Ok_0
}

/// The attributes of a synthetic ancestor node: everything inherited, a
/// directory, not deferred, no metadata.
pub open spec fn spec_default_node_attrs(n: PathItemModel) -> bool {
    &&& n.permission == Permission::Inherit
    &&& n.owner == Owner::Inherit
    &&& n.path_type == PathType::Directory
    &&& n.deferred == false
    &&& n.metadata == Seq::<(Seq<char>, crate::value::MetadataValue)>::empty()
}

/// The node carries exactly the declaration's attributes.
pub open spec fn spec_node_attrs_of(n: PathItemModel, a: PathItemArgsModel) -> bool {
    &&& n.permission == a.permission
    &&& n.owner == a.owner
    &&& n.path_type == a.path_type
    &&& n.deferred == a.deferred
    &&& n.metadata == a.metadata
}

/// Node `i` is the final component of some declared key.
pub open spec fn spec_is_item_node(im: Map<Seq<char>, usize>, i: int) -> bool {
    exists|k: Seq<char>| #[trigger] im.contains_key(k) && im[k] as int == i
}

/// Appending a node whose parent (if any) lies in the old arena keeps the
/// arena well-formed and leaves every old node's chain unchanged.
proof fn lemma_chain_push_frame(items: Seq<PathItemModel>, x: PathItemModel, i: int)
    requires
        spec_items_wf(items),
        x.parent matches Some(p) ==> 0 <= p < items.len(),
        0 <= i < items.len(),
    ensures
        spec_items_wf(items.push(x)),
        spec_chain(items.push(x), i) == spec_chain(items, i),
    decreases i,
{
    let ext = items.push(x);
    assert(spec_items_wf(ext)) by {
        assert forall|j: int| 0 <= j < ext.len() implies (#[trigger] ext[j].parent matches Some(p)
            ==> 0 <= p < j) by {
            if j < items.len() {
                assert(ext[j] == items[j]);
            }
        }
    }
    assert(ext[i] == items[i]);
    match items[i].parent {
        None => {},
        Some(p) => {
            lemma_chain_push_frame(items, x, p);
        },
    }
}

/// Replacing a node with one that keeps its parent keeps the arena
/// well-formed and leaves every chain's index sequence unchanged.
proof fn lemma_chain_update_frame(items: Seq<PathItemModel>, e: int, x: PathItemModel, i: int)
    requires
        spec_items_wf(items),
        0 <= e < items.len(),
        x.parent == items[e].parent,
        0 <= i < items.len(),
    ensures
        spec_items_wf(items.update(e, x)),
        spec_chain(items.update(e, x), i) == spec_chain(items, i),
    decreases i,
{
    let upd = items.update(e, x);
    assert(spec_items_wf(upd)) by {
        assert forall|j: int| 0 <= j < upd.len() implies (#[trigger] upd[j].parent matches Some(p)
            ==> 0 <= p < j) by {
            if j != e {
                assert(upd[j] == items[j]);
            }
        }
    }
    assert(upd[i].parent == items[i].parent);
    match items[i].parent {
        None => {},
        Some(p) => {
            lemma_chain_update_frame(items, e, x, p);
        },
    }
}

/// An escaping chain cannot start on a cycle: parents on a cycle always stay
/// on the cycle and never reach a root.
#[verifier::rlimit(30)]
proof fn lemma_escaping_chain_beats_cycle(
    m: Map<Seq<char>, PathItemArgsModel>,
    cs: Seq<Seq<char>>,
    c: Seq<Seq<char>>,
)
    requires
        spec_escaping_chain(m, cs),
        spec_is_cycle(m, c),
    ensures
        !c.contains(cs[0]),
    decreases cs.len(),
{
    if c.contains(cs[0]) {
        let j = choose|j: int| 0 <= j < c.len() && c[j] == cs[0];
        let nj = if j == c.len() - 1 {
            0int
        } else {
            j + 1
        };
        assert(m[cs[0]].parent == Some(c[nj]));
        assert(m.contains_key(c[nj]));
        if cs.len() == 1 {
            assert(m[cs[cs.len() - 1]].parent matches Some(p) && m.contains_key(p));
        } else {
            assert(m[cs[0]].parent == Some(cs[1]));
            assert(cs[1] == c[nj]);
            let rest = cs.drop_first();
            assert(rest[0] == cs[1]);
            assert(spec_escaping_chain(m, rest)) by {
                assert(forall|i: int| 0 <= i < rest.len() ==> rest[i] == cs[i + 1]);
                assert(rest[rest.len() - 1] == cs[cs.len() - 1]);
            }
            lemma_escaping_chain_beats_cycle(m, rest, c);
            assert(!c.contains(rest[0]));
        }
    }
}

/// A visited chain whose last key's parent reappears within it yields a
/// parent cycle.
#[verifier::rlimit(60)]
#[verifier::spinoff_prover]
proof fn lemma_cycle_from_visited(
    m: Map<Seq<char>, PathItemArgsModel>,
    vs: Seq<Seq<char>>,
    p: Seq<char>,
    j: int,
)
    requires
        vs.len() >= 1,
        forall|i: int| 0 <= i < vs.len() ==> m.contains_key(#[trigger] vs[i]),
        forall|i: int| 0 <= i < vs.len() - 1 ==> m[#[trigger] vs[i]].parent == Some(vs[i + 1]),
        m[vs[vs.len() - 1]].parent == Some(p),
        0 <= j < vs.len(),
        vs[j] == p,
    ensures
        spec_has_parent_cycle(m),
        spec_is_cycle(m, vs.subrange(j, vs.len() as int)),
{
    let c = vs.subrange(j, vs.len() as int);
    assert forall|i: int| 0 <= i < c.len() implies m.contains_key(#[trigger] c[i]) && m[c[i]].parent
        == Some(
        c[
            if i == c.len() - 1 {
                0int
            } else {
                i + 1
            }
        ],
    ) by {
        assert(c[i] == vs[j + i]);
        if i < c.len() - 1 {
            assert(m[vs[j + i]].parent == Some(vs[j + i + 1]));
            assert(c[i + 1] == vs[j + i + 1]);
        } else {
            assert(c[i] == vs[vs.len() - 1]);
            assert(c[0] == vs[j]);
            assert(m[c[i]].parent == Some(p));
        }
    }
    assert(spec_is_cycle(m, c));
}

/// Whether a key occurs among the collected chain keys.
fn key_in_vec(v: &Vec<FieldKey>, k: &FieldKey) -> (r: bool)
    ensures
        r == exists|i: int| 0 <= i < v@.len() && (#[trigger] v@[i])@ == k@,
{
    let mut i: usize = 0;
    while i < v.len()
        invariant
            i <= v@.len(),
            forall|j: int| 0 <= j < i ==> (#[trigger] v@[j])@ != k@,
        decreases v@.len() - i,
    {
        if v[i].eq(k) {
            assert(v@[i as int]@ == k@);
            return true;
        }
        i = i + 1;
    }
    false
}

/// The key views of a collected chain.
pub open spec fn spec_key_views(v: Seq<FieldKey>) -> Seq<Seq<char>> {
    v.map(|i: int, k: FieldKey| k@)
}

/// Walk one item's parent chain looking for a key that reappears among its
/// own ancestors.
#[verifier::rlimit(30)]
fn check_cycle_from(items: &AttrMap<ItemDecl>, start: &FieldKey) -> (r: Result<(), Error>)
    requires
        items@.contains_key(start@),
    ensures
        r is Ok ==> exists|cs: Seq<Seq<char>>|
            spec_escaping_chain(items@, cs) && cs[0] == start@,
        r matches Err(e) ==> spec_has_parent_cycle(items@) && (e matches
            Error::InfiniteRecursionError { item, parent } && items@.contains_key(item@)
            && items@[item@].parent == Some(parent@) && (exists|c: Seq<Seq<char>>|
            spec_is_cycle(items@, c) && c.contains(item@) && c.contains(parent@))),
{
    let mut visited: Vec<FieldKey> = Vec::new();
    visited.push(start.clone());
    let mut cur: FieldKey = start.clone();
    items.note_distinct_keys();
    loop
        invariant
            visited@.len() >= 1,
            spec_key_views(visited@)[0] == start@,
            cur@ == spec_key_views(visited@)[visited@.len() - 1],
            forall|i: int|
                0 <= i < visited@.len() ==> items@.contains_key(
                    #[trigger] spec_key_views(visited@)[i],
                ),
            forall|i: int|
                0 <= i < visited@.len() - 1 ==> items@[#[trigger] spec_key_views(visited@)[i]].parent
                    == Some(spec_key_views(visited@)[i + 1]),
            spec_key_views(visited@).no_duplicates(),
            items.key_seq().no_duplicates(),
        decreases items.key_seq().len() + 1 - visited@.len(),
    {
        proof {
            assert forall|x: Seq<char>| spec_key_views(visited@).contains(x) implies
                items.key_seq().contains(x) by {
                let i = choose|i: int|
                    0 <= i < visited@.len() && spec_key_views(visited@)[i] == x;
                items.lemma_contains(x);
            }
            lemma_distinct_within_len(spec_key_views(visited@), items.key_seq());
        }
        let args = match items.get(&cur) {
            Some(a) => a,
            None => {
                proof {
                    assert(items@.contains_key(cur@));
                }
                return Ok(());
            },
        };
        match &args.parent {
            None => {
                proof {
                    let cs = spec_key_views(visited@);
                    assert(items@[cs[cs.len() - 1]].parent is None);
                    assert(spec_escaping_chain(items@, cs));
                }
                return Ok(());
            },
            Some(p) => {
                if key_in_vec(&visited, p) {
                    proof {
                        let vs = spec_key_views(visited@);
                        let j = choose|j: int|
                            0 <= j < visited@.len() && (#[trigger] visited@[j])@ == p@;
                        assert(vs[j] == p@);
                        assert(items@[vs[vs.len() - 1]].parent == Some(p@));
                        lemma_cycle_from_visited(items@, vs, p@, j);
                        let c = vs.subrange(j, vs.len() as int);
                        assert(c[0] == vs[j]);
                        assert(c.contains(p@));
                        assert(c[c.len() - 1] == vs[vs.len() - 1]);
                        assert(c.contains(cur@));
                        assert(items@.contains_key(cur@));
                    }
                    return Err(
                        Error::InfiniteRecursionError { item: cur.clone(), parent: p.clone() },
                    );
                }
                match items.get(p) {
                    None => {
                        proof {
                            let cs = spec_key_views(visited@);
                            assert(items@[cs[cs.len() - 1]].parent == Some(p@));
                            assert(!items@.contains_key(p@));
                            assert(spec_escaping_chain(items@, cs));
                        }
                        return Ok(());
                    },
                    Some(_) => {
                        let ghost before = spec_key_views(visited@);
                        visited.push(p.clone());
                        cur = p.clone();
                        proof {
                            assert(spec_key_views(visited@) =~= before.push(p@));
                        }
                    },
                }
            },
        }
    }
}

/// Check every item's parent chain for cycles.
fn check_cycles(items: &AttrMap<ItemDecl>) -> (r: Result<(), Error>)
    ensures
        r is Ok ==> !spec_has_parent_cycle(items@),
        r matches Err(e) ==> spec_has_parent_cycle(items@) && (e matches
            Error::InfiniteRecursionError { item, parent } && items@.contains_key(item@)
            && items@[item@].parent == Some(parent@) && (exists|c: Seq<Seq<char>>|
            spec_is_cycle(items@, c) && c.contains(item@) && c.contains(parent@))),
{
    let n = items.len();
    let mut idx: usize = 0;
    while idx < n
        invariant
            n == items.key_seq().len(),
            idx <= n,
            forall|i: int|
                0 <= i < idx ==> exists|cs: Seq<Seq<char>>|
                    spec_escaping_chain(items@, cs) && cs[0] == #[trigger] items.key_seq()[i],
        decreases n - idx,
    {
        let key = items.key_at(idx);
        match check_cycle_from(items, key) {
            Ok(()) => (),
            Err(e) => {
                return Err(e);
            },
        }
        idx = idx + 1;
    }
    proof {
        assert forall|c: Seq<Seq<char>>| !spec_is_cycle(items@, c) by {
            if spec_is_cycle(items@, c) {
                assert(items@.contains_key(c[0]));
                items.lemma_contains(c[0]);
                let i = choose|i: int|
                    0 <= i < items.key_seq().len() && items.key_seq()[i] == c[0];
                let cs = choose|cs: Seq<Seq<char>>|
                    spec_escaping_chain(items@, cs) && cs[0] == items.key_seq()[i];
                assert(c.contains(c[0]));
                lemma_escaping_chain_beats_cycle(items@, cs, c);
                assert(!c.contains(cs[0]));
            }
        }
    }
    Ok(())
}

/// Check that every named parent is a declared item.
fn check_parents(items: &AttrMap<ItemDecl>) -> (r: Result<(), Error>)
    ensures
        r is Ok ==> spec_parents_present(items@),
        r matches Err(e) ==> !spec_parents_present(items@) && (e matches
            Error::MissingParentError(p) && !items@.contains_key(p@) && (exists|k: Seq<char>|
            #[trigger] items@.contains_key(k) && items@[k].parent == Some(p@))),
{
    let n = items.len();
    let mut idx: usize = 0;
    while idx < n
        invariant
            n == items.key_seq().len(),
            idx <= n,
            forall|i: int|
                0 <= i < idx ==> (items@[#[trigger] items.key_seq()[i]].parent matches Some(p)
                    ==> items@.contains_key(p)),
        decreases n - idx,
    {
        let args = items.val_at(idx);
        match &args.parent {
            Some(p) => {
                if !items.contains_key(p) {
                    proof {
                        let k = items.key_seq()[idx as int];
                        items.lemma_contains(k);
                        assert(items@.contains_key(k) && items@[k].parent == Some(p@)
                            && !items@.contains_key(p@));
                    }
                    return Err(Error::MissingParentError(p.clone()));
                }
            },
            None => (),
        }
        idx = idx + 1;
    }
    proof {
        assert forall|k: Seq<char>|
            items@.contains_key(k) && items@[k].parent is Some implies items@.contains_key(
            items@[k].parent->0,
        ) by {
            items.lemma_contains(k);
            let i = choose|i: int| 0 <= i < items.key_seq().len() && items.key_seq()[i] == k;
        }
    }
    Ok(())
}

/// An `Option<usize>` parent link as it appears in node models.
pub open spec fn spec_opt_int(p: Option<usize>) -> Option<int> {
    match p {
        Some(v) => Some(v as int),
        None => None,
    }
}

/// The models of a node vector.
pub open spec fn spec_node_models(ns: Seq<PathItem>) -> Seq<PathItemModel> {
    ns.map(|i: int, n: PathItem| n@)
}

/// Collect the root-first chain of declared keys above (and including) one
/// key, following parent links.
fn collect_chain(items: &AttrMap<ItemDecl>, start: &FieldKey) -> (r: Vec<FieldKey>)
    requires
        items@.contains_key(start@),
        !spec_has_parent_cycle(items@),
        spec_parents_present(items@),
    ensures
        r@.len() >= 1,
        spec_key_views(r@)[r@.len() - 1] == start@,
        forall|i: int|
            0 <= i < r@.len() ==> items@.contains_key(#[trigger] spec_key_views(r@)[i]),
        forall|i: int|
            0 < i < r@.len() ==> items@[#[trigger] spec_key_views(r@)[i]].parent == Some(
                spec_key_views(r@)[i - 1],
            ),
        items@[spec_key_views(r@)[0]].parent is None,
{
    let mut visited: Vec<FieldKey> = Vec::new();
    visited.push(start.clone());
    let mut cur: FieldKey = start.clone();
    items.note_distinct_keys();
    loop
        invariant
            items@.contains_key(start@),
            !spec_has_parent_cycle(items@),
            spec_parents_present(items@),
            visited@.len() >= 1,
            spec_key_views(visited@)[0] == start@,
            cur@ == spec_key_views(visited@)[visited@.len() - 1],
            forall|i: int|
                0 <= i < visited@.len() ==> items@.contains_key(
                    #[trigger] spec_key_views(visited@)[i],
                ),
            forall|i: int|
                0 <= i < visited@.len() - 1 ==> items@[#[trigger] spec_key_views(
                    visited@,
                )[i]].parent == Some(spec_key_views(visited@)[i + 1]),
            spec_key_views(visited@).no_duplicates(),
            items.key_seq().no_duplicates(),
        ensures
            visited@.len() >= 1,
            spec_key_views(visited@)[0] == start@,
            forall|i: int|
                0 <= i < visited@.len() ==> items@.contains_key(
                    #[trigger] spec_key_views(visited@)[i],
                ),
            forall|i: int|
                0 <= i < visited@.len() - 1 ==> items@[#[trigger] spec_key_views(
                    visited@,
                )[i]].parent == Some(spec_key_views(visited@)[i + 1]),
            items@[spec_key_views(visited@)[visited@.len() - 1]].parent is None,
        decreases items.key_seq().len() + 1 - visited@.len(),
    {
        proof {
            assert forall|x: Seq<char>| spec_key_views(visited@).contains(x) implies
                items.key_seq().contains(x) by {
                let i = choose|i: int|
                    0 <= i < visited@.len() && spec_key_views(visited@)[i] == x;
                items.lemma_contains(x);
            }
            lemma_distinct_within_len(spec_key_views(visited@), items.key_seq());
        }
        let stop: bool = match items.get(&cur) {
            Some(args) => {
                match &args.parent {
                    None => {
                        proof {
                            assert(items@[cur@].parent is None);
                        }
                        true
                    },
                    Some(p) => {
                        if key_in_vec(&visited, p) {
                            proof {
                                let vs = spec_key_views(visited@);
                                let j = choose|j: int|
                                    0 <= j < visited@.len() && (#[trigger] visited@[j])@ == p@;
                                assert(vs[j] == p@);
                                assert(items@[vs[vs.len() - 1]].parent == Some(p@));
                                lemma_cycle_from_visited(items@, vs, p@, j);
                                assert(false);
                            }
                            true
                        } else {
                            proof {
                                assert(items@.contains_key(cur@) && items@[cur@].parent is Some);
                                assert(items@.contains_key(p@));
                            }
                            let ghost before = spec_key_views(visited@);
                            visited.push(p.clone());
                            cur = p.clone();
                            proof {
                                assert(spec_key_views(visited@) =~= before.push(p@));
                            }
                            false
                        }
                    },
                }
            },
            None => {
                proof {
                    assert(items@.contains_key(cur@));
                    assert(false);
                }
                true
            },
        };
        if stop {
            break ;
        }
    }
    let n = visited.len();
    let mut out: Vec<FieldKey> = Vec::new();
    let mut j: usize = 0;
    while j < n
        invariant
            n == visited@.len(),
            j <= n,
            out@.len() == j,
            forall|l: int|
                0 <= l < j ==> #[trigger] spec_key_views(out@)[l] == spec_key_views(visited@)[n - 1
                    - l],
            n >= 1,
            spec_key_views(visited@)[0] == start@,
            forall|i: int|
                0 <= i < visited@.len() ==> items@.contains_key(
                    #[trigger] spec_key_views(visited@)[i],
                ),
            forall|i: int|
                0 <= i < visited@.len() - 1 ==> items@[#[trigger] spec_key_views(
                    visited@,
                )[i]].parent == Some(spec_key_views(visited@)[i + 1]),
            items@[spec_key_views(visited@)[visited@.len() - 1]].parent is None,
        decreases n - j,
    {
        let ghost before = spec_key_views(out@);
        out.push(visited[n - 1 - j].clone());
        proof {
            assert(spec_key_views(out@) =~= before.push(visited@[n - 1 - j]@));
        }
        j = j + 1;
    }
    proof {
        assert forall|i: int| 0 < i < out@.len() implies items@[#[trigger] spec_key_views(
            out@,
        )[i]].parent == Some(spec_key_views(out@)[i - 1]) by {
            assert(spec_key_views(out@)[i] == spec_key_views(visited@)[n - 1 - i]);
            assert(spec_key_views(out@)[i - 1] == spec_key_views(visited@)[n - i]);
            assert(items@[spec_key_views(visited@)[n - 1 - i]].parent == Some(
                spec_key_views(visited@)[n - 1 - i + 1],
            ));
        }
        assert(spec_key_views(out@)[0] == spec_key_views(visited@)[n - 1]);
        assert(spec_key_views(out@)[out@.len() - 1] == spec_key_views(visited@)[0]);
    }
    out
}

/// Find an existing arena node with the given parent and the same component
/// tokens: the shared-prefix lookup.
fn find_child_node(nodes: &Vec<PathItem>, parent: Option<usize>, tokens: &Tokens) -> (r: Option<
    usize,
>)
    ensures
        r matches Some(e) ==> e < nodes@.len() && spec_node_models(nodes@)[e as int].parent
            == spec_opt_int(parent) && spec_node_models(nodes@)[e as int].path == tokens@,
{
    let mut e: usize = 0;
    while e < nodes.len()
        invariant
            e <= nodes@.len(),
        decreases nodes@.len() - e,
    {
        let same_parent: bool = match (&nodes[e].parent, &parent) {
            (None, None) => true,
            (Some(a), Some(b)) => *a == *b,
            _ => false,
        };
        if same_parent {
            if tokens_equal(&nodes[e].path, tokens) {
                return Some(e);
            }
        }
        e = e + 1;
    }
    None
}

/// The immutable, fully validated template tree: resolver declarations, the
/// arena of path nodes, the key-to-node index, and the stored content
/// templates.  All fields are exposed for specification transparency; a
/// config is meant to be obtained from [`ConfigBuilder::build`], whose result
/// always satisfies [`Config::wf`].
#[derive(Debug)]
pub struct Config {
    pub resolvers: Resolvers,
    pub items: Vec<PathItem>,
    pub item_map: AttrMap<usize>,
    pub template_map: AttrMap<String>,
}

impl Config {
    /// The models of the arena nodes.
    pub open spec fn items_model(&self) -> Seq<PathItemModel> {
        self.items@.map(|i: int, it: PathItem| it@)
    }

    /// Structural well-formedness: the arena is topologically ordered and
    /// the key index points into it.
    pub open spec fn wf(&self) -> bool {
        &&& spec_items_wf(self.items_model())
        &&& forall|k: Seq<char>|
            self.item_map@.contains_key(k) ==> #[trigger] self.item_map@[k]
                < self.items_model().len()
    }

    /// Reconstruct the root-first chain of arena nodes for a key.
    pub fn get_item(&self, key: &FieldKey) -> (r: Option<Vec<&PathItem>>)
        requires
            self.wf(),
        ensures
            r is Some <==> self.item_map@.contains_key(key@),
            r matches Some(v) ==> {
                let chain = spec_chain(self.items_model(), self.item_map@[key@] as int);
                &&& v@.len() == chain.len()
                &&& forall|j: int|
                    0 <= j < chain.len() ==> 0 <= #[trigger] chain[j] < self.items_model().len()
                        && v@[j]@ == self.items_model()[chain[j]]
            },
    {
        let last_id: usize = match self.item_map.get(key) {
            Some(id) => *id,
            None => {
                return None;
            },
        };
        let ghost items_m = self.items_model();
        let mut rev: Vec<usize> = Vec::new();
        rev.push(last_id);
        let mut cur: usize = last_id;
        let mut more = true;
        while more
            invariant
                self.wf(),
                rev@.len() >= 1,
                rev@[0] == last_id,
                last_id < items_m.len(),
                items_m == self.items_model(),
                cur < items_m.len(),
                cur == rev@[rev@.len() - 1],
                forall|j: int| 0 <= j < rev@.len() ==> #[trigger] rev@[j] < items_m.len(),
                forall|j: int|
                    0 <= j < rev@.len() - 1 ==> items_m[#[trigger] rev@[j] as int].parent == Some(
                        rev@[j + 1] as int,
                    ),
                more ==> spec_chain(items_m, last_id as int) == spec_chain(items_m, cur as int)
                    + rev@.map(|i: int, x: usize| x as int).drop_last().reverse(),
                !more ==> spec_chain(items_m, last_id as int) == rev@.map(
                    |i: int, x: usize| x as int,
                ).reverse(),
            decreases cur + (if more {
                1int
            } else {
                0int
            }),
        {
            let parent = self.items[cur].parent;
            proof {
                let rints = rev@.map(|i: int, x: usize| x as int);
                assert(items_m[cur as int].parent == (match parent {
                    Some(p) => Some(p as int),
                    None => None,
                }));
                match parent {
                    Some(p) => {
                        let next = rints.push(p as int);
                        assert(spec_chain(items_m, cur as int) == spec_chain(items_m, p as int)
                            .push(cur as int));
                        assert(next.drop_last() =~= rints);
                        assert(spec_chain(items_m, p as int) + next.drop_last().reverse()
                            =~= spec_chain(items_m, p as int).push(cur as int)
                            + rints.drop_last().reverse()) by {
                            assert(rints.reverse()[0] == cur as int);
                            assert(next.drop_last().reverse() =~= seq![cur as int]
                                + rints.drop_last().reverse());
                        }
                    },
                    None => {
                        assert(spec_chain(items_m, cur as int) =~= seq![cur as int]);
                        assert(spec_chain(items_m, last_id as int) =~= rints.reverse()) by {
                            assert(rints.reverse() =~= seq![cur as int]
                                + rints.drop_last().reverse());
                        }
                    },
                }
            }
            match parent {
                Some(p) => {
                    let ghost prev = rev@;
                    cur = p;
                    rev.push(p);
                    proof {
                        assert(rev@.map(|i: int, x: usize| x as int) =~= prev.map(
                            |i: int, x: usize| x as int,
                        ).push(p as int));
                    }
                },
                None => {
                    more = false;
                },
            }
        }
        let mut out: Vec<&PathItem> = Vec::new();
        let n = rev.len();
        let mut j: usize = 0;
        let ghost chain = spec_chain(items_m, last_id as int);
        while j < n
            invariant
                n == rev@.len(),
                j <= n,
                chain == rev@.map(|i: int, x: usize| x as int).reverse(),
                chain.len() == n,
                items_m == self.items_model(),
                forall|l: int| 0 <= l < rev@.len() ==> #[trigger] rev@[l] < items_m.len(),
                out@.len() == j,
                forall|l: int| 0 <= l < j ==> #[trigger] out@[l]@ == items_m[chain[l]],
                forall|l: int| 0 <= l < chain.len() ==> 0 <= #[trigger] chain[l] < items_m.len(),
            decreases n - j,
        {
            let idx = rev[n - 1 - j];
            proof {
                assert(chain[j as int] == rev@.map(|i: int, x: usize| x as int)[n - 1 - j]);
            }
            out.push(&self.items[idx]);
            j = j + 1;
        }
        Some(out)
    }

    /// The render capability admits `ret` for the stored template text: some
    /// `&str` holding exactly `template` was handed to `render` together with
    /// `fields`, and `ret` satisfies the capability's postcondition for them.
    pub open spec fn spec_render_outcome<F: Fn(&str, &crate::TemplateAttributes) -> Result<
        String,
        String,
    >>(
        template: Seq<char>,
        render: F,
        fields: &crate::TemplateAttributes,
        ret: Result<String, String>,
    ) -> bool {
        exists|t: &str| t@ == template && #[trigger] call_ensures(render, (t, fields), ret)
    }

    /// The stored content template for a key, when one was declared.
    pub fn get_template(&self, key: &FieldKey) -> (r: Option<&String>)
        ensures
            r is Some <==> self.template_map@.contains_key(key@),
            r matches Some(t) ==> t@ == self.template_map@[key@],
    {
        self.template_map.get(key)
    }

    /// Render a stored content template through the external
    /// template-rendering capability: the template text under the key and
    /// the context fields are handed to `render`, whose failure message
    /// comes back as a template error.
    #[verifier::rlimit(60)]
    pub fn write_template_to_string<F: Fn(&str, &crate::TemplateAttributes) -> Result<
        String,
        String,
    >>(
        &self,
        key: &str,
        template_fields: &crate::TemplateAttributes,
        render: F,
    ) -> (r: Result<String, Error>)
        requires
            forall|t: &str, a: &crate::TemplateAttributes| call_requires(render, (t, a)),
        ensures
            !spec_valid_key(spec_lower(key@)) ==> (r matches Err(e) && e is ParseError),
            spec_valid_key(spec_lower(key@)) && !self.template_map@.contains_key(spec_lower(key@))
                ==> (r matches Err(e) && e matches Error::FieldError(k) && k@ == spec_lower(key@)),
            spec_valid_key(spec_lower(key@)) && self.template_map@.contains_key(spec_lower(key@))
                ==> (r matches Err(e) ==> e matches Error::TemplateError(m)
                && Config::spec_render_outcome(
                    self.template_map@[spec_lower(key@)],
                    render,
                    template_fields,
                    Err(m),
                )),
            r matches Ok(s) ==> spec_valid_key(spec_lower(key@))
                && self.template_map@.contains_key(spec_lower(key@))
                && Config::spec_render_outcome(
                    self.template_map@[spec_lower(key@)],
                    render,
                    template_fields,
                    Ok(s),
                ),
            (spec_valid_key(spec_lower(key@)) && self.template_map@.contains_key(spec_lower(key@))
                && (forall|args: (&str, &crate::TemplateAttributes), ret: Result<String, String>|
                call_ensures(render, args, ret) ==> ret is Ok)) ==> r is Ok,
            (spec_valid_key(spec_lower(key@)) && self.template_map@.contains_key(spec_lower(key@))
                && (forall|args: (&str, &crate::TemplateAttributes), ret: Result<String, String>|
                call_ensures(render, args, ret) ==> ret is Err)) ==> r is Err,
    {
        let k = match FieldKey::new(key) {
            Ok(k) => k,
            Err(e) => {
                return Err(e);
            },
        };
        let template = match self.template_map.get(&k) {
            Some(t) => t,
            None => {
                return Err(Error::FieldError(crate::chars::chars_to_string(
                    &crate::chars::str_to_chars(k.as_str()),
                )));
            },
        };
        let targ: &str = template.as_str();
        match render(targ, template_fields) {
            Ok(s) => {
                proof {
                    assert(targ@ == self.template_map@[spec_lower(key@)]);
                    assert(call_ensures(render, (targ, template_fields), Ok(s)));
                    assert(Config::spec_render_outcome(
                        self.template_map@[spec_lower(key@)],
                        render,
                        template_fields,
                        Ok(s),
                    ));
                }
                return Ok(s);
            },
            Err(msg) => {
                proof {
                    assert(targ@ == self.template_map@[spec_lower(key@)]);
                    assert(call_ensures(render, (targ, template_fields), Err(msg)));
                    assert(Config::spec_render_outcome(
                        self.template_map@[spec_lower(key@)],
                        render,
                        template_fields,
                        Err(msg),
                    ));
                }
                return Err(Error::TemplateError(msg));
            },
        }
    }
}

/// One declaration as the builder stores it: the caller's arguments with the
/// metadata behind a shared handle.
#[derive(Debug)]
pub(crate) struct ItemDecl {
    pub key: FieldKey,
    pub path: String,
    pub parent: Option<FieldKey>,
    pub permission: Permission,
    pub owner: Owner,
    pub path_type: PathType,
    pub deferred: bool,
    pub metadata: std::sync::Arc<MetadataMap>,
}

impl View for ItemDecl {
    type V = PathItemArgsModel;

    closed spec fn view(&self) -> PathItemArgsModel {
        PathItemArgsModel {
            key: self.key@,
            path: self.path@,
            parent: match self.parent {
                Some(ref p) => Some(p@),
                None => None,
            },
            permission: self.permission,
            owner: self.owner,
            path_type: self.path_type,
            deferred: self.deferred,
            metadata: self.metadata@,
        }
    }
}

/// Collects declarations and builds a [`Config`].
#[derive(Debug)]
pub struct ConfigBuilder {
    resolvers: Resolvers,
    items: AttrMap<ItemDecl>,
    template_map: AttrMap<String>,
}

impl ConfigBuilder {
    /// The declared resolvers.
    pub closed spec fn resolvers_model(&self) -> Map<
        Seq<char>,
        <Resolver as View>::V,
    > {
        self.resolvers@
    }

    /// The declared items.
    pub closed spec fn args_model(&self) -> Map<Seq<char>, PathItemArgsModel> {
        self.items@
    }

    /// The declaration order of the item keys.
    pub closed spec fn args_order(&self) -> Seq<Seq<char>> {
        self.items.key_seq()
    }

    /// The declared content templates.
    pub closed spec fn templates_model(&self) -> Map<Seq<char>, Seq<char>> {
        self.template_map@
    }

    pub fn new() -> (r: ConfigBuilder)
        ensures
            r.resolvers_model() =~= Map::<Seq<char>, <Resolver as View>::V>::empty(),
            r.args_model() =~= Map::<Seq<char>, PathItemArgsModel>::empty(),
            r.templates_model() =~= Map::<Seq<char>, Seq<char>>::empty(),
            r.args_order() =~= Seq::<Seq<char>>::empty(),
    {
        ConfigBuilder {
            resolvers: AttrMap::new(),
            items: AttrMap::new(),
            template_map: AttrMap::new(),
        }
    }

    /// Declare a string resolver for a placeholder, with an optional
    /// regular-expression shape that must compile.
    pub fn add_string_resolver(self, key: &str, pattern: Option<&str>) -> (r: Result<
        ConfigBuilder,
        Error,
    >)
        ensures
            r is Ok <==> spec_valid_key(spec_lower(key@)) && (pattern matches Some(p)
                ==> regex_compiles(p@)),
            r matches Ok(b) ==> {
                &&& b.resolvers_model() =~= self.resolvers_model().insert(
                    spec_lower(key@),
                    <Resolver as View>::V::Str(
                        match pattern {
                            Some(p) => Some(p@),
                            None => None,
                        },
                    ),
                )
                &&& b.args_model() == self.args_model()
                &&& b.args_order() == self.args_order()
                &&& b.templates_model() == self.templates_model()
            },
            r matches Err(e) ==> e is ParseError || e is RegexError,
    {
        let mut this = self;
        let k = match FieldKey::new(key) {
            Ok(k) => k,
            Err(e) => {
                return Err(e);
            },
        };
        let pat: Option<String> = match pattern {
            Some(p) => {
                match compile_pattern(p) {
                    Ok(_) => Some(p.to_owned()),
                    Err(msg) => {
                        return Err(Error::RegexError(msg));
                    },
                }
            },
            None => None,
        };
        this.resolvers.insert(k, Resolver::String { pattern: pat });
        Ok(this)
    }

    /// Declare an integer resolver for a placeholder, rendered zero-padded
    /// to at least `padding` digits.
    pub fn add_integer_resolver(self, key: &str, padding: u8) -> (r: Result<ConfigBuilder, Error>)
        ensures
            r is Ok <==> spec_valid_key(spec_lower(key@)),
            r matches Ok(b) ==> {
                &&& b.resolvers_model() =~= self.resolvers_model().insert(
                    spec_lower(key@),
                    <Resolver as View>::V::Int(padding),
                )
                &&& b.args_model() == self.args_model()
                &&& b.args_order() == self.args_order()
                &&& b.templates_model() == self.templates_model()
            },
            r matches Err(e) ==> e is ParseError,
    {
        let mut this = self;
        let k = match FieldKey::new(key) {
            Ok(k) => k,
            Err(e) => {
                return Err(e);
            },
        };
        this.resolvers.insert(k, Resolver::Integer { padding });
        Ok(this)
    }

    /// Declare an entity resolver for a placeholder, referring to a named
    /// entity type.
    pub fn add_entity_resolver(self, key: &str, entity: &str) -> (r: Result<ConfigBuilder, Error>)
        ensures
            r is Ok <==> spec_valid_key(spec_lower(key@)) && spec_valid_key(spec_lower(entity@)),
            r matches Ok(b) ==> {
                &&& b.resolvers_model() =~= self.resolvers_model().insert(
                    spec_lower(key@),
                    <Resolver as View>::V::Ent(spec_lower(entity@)),
                )
                &&& b.args_model() == self.args_model()
                &&& b.args_order() == self.args_order()
                &&& b.templates_model() == self.templates_model()
            },
            r matches Err(e) ==> e is ParseError,
    {
        let mut this = self;
        let k = match FieldKey::new(key) {
            Ok(k) => k,
            Err(e) => {
                return Err(e);
            },
        };
        let ek = match FieldKey::new(entity) {
            Ok(k) => k,
            Err(e) => {
                return Err(e);
            },
        };
        this.resolvers.insert(k, Resolver::Entity { key: ek });
        Ok(this)
    }

    /// Declare one path item.
    pub fn add_path_item(self, args: PathItemArgs) -> (r: Result<ConfigBuilder, Error>)
        ensures
            r matches Ok(b) ==> {
                &&& b.args_model() =~= self.args_model().insert(args.key@, args@)
                &&& b.args_order() =~= if self.args_model().contains_key(args.key@) {
                    self.args_order()
                } else {
                    self.args_order().push(args.key@)
                }
                &&& b.resolvers_model() == self.resolvers_model()
                &&& b.templates_model() == self.templates_model()
            },
            r is Ok,
    {
        let mut this = self;
        let PathItemArgs { key, path, parent, permission, owner, path_type, deferred, metadata } =
            args;
        let map_key = key.clone();
        let decl = ItemDecl {
            key,
            path,
            parent,
            permission,
            owner,
            path_type,
            deferred,
            metadata: std::sync::Arc::new(metadata),
        };
        this.items.insert(map_key, decl);
        Ok(this)
    }

    /// Store a content template under a key.  The template text is kept as
    /// it is; rendering it is the external engine's concern.
    pub fn add_template(self, key: &str, value: &str) -> (r: Result<ConfigBuilder, Error>)
        ensures
            r is Ok <==> spec_valid_key(spec_lower(key@)),
            r matches Ok(b) ==> {
                &&& b.templates_model() =~= self.templates_model().insert(
                    spec_lower(key@),
                    value@,
                )
                &&& b.args_model() == self.args_model()
                &&& b.args_order() == self.args_order()
                &&& b.resolvers_model() == self.resolvers_model()
            },
            r matches Err(e) ==> e is ParseError,
    {
        let mut this = self;
        let k = match FieldKey::new(key) {
            Ok(k) => k,
            Err(e) => {
                return Err(e);
            },
        };
        this.template_map.insert(k, value.to_owned());
        Ok(this)
    }

    /// Validate the declarations and build the config: no parent cycles, no
    /// missing parents, every template usable; then flatten each item's chain
    /// into the arena, sharing equal components under the same parent.
    ///
    /// On success, for every declared key the arena chain of its node holds,
    /// root first, exactly the tokenizations of its flattened template: the
    /// transitive parents' components followed by its own.  Every node that
    /// is no declared key's final component is a synthetic ancestor with
    /// inherited attributes, and a key whose final node is shared with no
    /// other key finds its declared attributes on that node.
    pub fn build(self) -> (r: Result<Config, Error>)
        ensures
            r is Ok <==> spec_build_accepts(self.args_model()),
            r matches Ok(config) ==> {
                &&& config.wf()
                &&& config.resolvers@ == self.resolvers_model()
                &&& config.template_map@ == self.templates_model()
                &&& forall|k: Seq<char>|
                    #[trigger] config.item_map@.contains_key(k) <==> self.args_model().contains_key(
                        k,
                    )
                &&& forall|k: Seq<char>, kc: Seq<Seq<char>>|
                    self.args_model().contains_key(k) && #[trigger] spec_root_chain(
                        self.args_model(),
                        kc,
                        k,
                    ) ==> spec_chain_matches(
                        config.items_model(),
                        config.item_map@[k] as int,
                        spec_flat_components(self.args_model(), kc),
                    )
                &&& forall|i: int|
                    0 <= i < config.items_model().len() && !spec_is_item_node(config.item_map@, i)
                        ==> spec_default_node_attrs(#[trigger] config.items_model()[i])
                &&& forall|k: Seq<char>|
                    #[trigger] config.item_map@.contains_key(k) && (forall|k2: Seq<char>|
                        config.item_map@.contains_key(k2) && k2 != k ==> config.item_map@[k2]
                            != config.item_map@[k]) ==> spec_node_attrs_of(
                        config.items_model()[config.item_map@[k] as int],
                        self.args_model()[k],
                    )
            },
            r matches Err(e) ==> {
                &&& (e is InfiniteRecursionError || e is MissingParentError || e is ParseError)
                &&& (e is InfiniteRecursionError <==> spec_has_parent_cycle(self.args_model()))
                &&& (e is MissingParentError <==> !spec_has_parent_cycle(self.args_model())
                    && !spec_parents_present(self.args_model()))
                &&& (e is ParseError <==> !spec_has_parent_cycle(self.args_model())
                    && spec_parents_present(self.args_model()) && !spec_templates_ok(
                    self.args_model(),
                ))
                &&& (e matches Error::InfiniteRecursionError { item, parent } ==> (
                self.args_model().contains_key(item@) && self.args_model()[item@].parent == Some(
                    parent@,
                ) && (exists|c: Seq<Seq<char>>|
                    spec_is_cycle(self.args_model(), c) && c.contains(item@) && c.contains(
                        parent@,
                    ))))
                &&& (e matches Error::MissingParentError(p) ==> (!self.args_model().contains_key(
                    p@,
                ) && (exists|k: Seq<char>|
                    #[trigger] self.args_model().contains_key(k) && self.args_model()[k].parent
                        == Some(p@))))
                &&& (e matches Error::ParseError(msg) ==> (exists|k: Seq<char>|
                    #[trigger] self.args_model().contains_key(k) && ((spec_components(
                        self.args_model()[k].path,
                    ).len() == 0 && msg@ == "Empty path"@) || (exists|j: int|
                        0 <= j < spec_components(self.args_model()[k].path).len() && ((
                        #[trigger] spec_tokenize(
                            spec_components(self.args_model()[k].path)[j],
                        )) matches Err(te) && msg@ == spec_tokenize_error_text(te))))))
            },
    {
        let ConfigBuilder { resolvers, items, template_map } = self;
        match check_cycles(&items) {
            Ok(()) => (),
            Err(e) => {
                return Err(e);
            },
        }
        match check_parents(&items) {
            Ok(()) => (),
            Err(e) => {
                return Err(e);
            },
        }
        let mut nodes: Vec<PathItem> = Vec::new();
        let mut item_map: AttrMap<usize> = AttrMap::new();
        let n = items.len();
        let mut idx: usize = 0;
        while idx < n
            invariant
                items@ == self.args_model(),
                n == items.key_seq().len(),
                idx <= n,
                !spec_has_parent_cycle(items@),
                spec_parents_present(items@),
                spec_items_wf(spec_node_models(nodes@)),
                forall|k: Seq<char>|
                    #[trigger] item_map@.contains_key(k) ==> item_map@[k] < nodes@.len(),
                forall|k: Seq<char>|
                    #[trigger] item_map@.contains_key(k) ==> items@.contains_key(k),
                forall|k: Seq<char>|
                    #[trigger] item_map@.contains_key(k) ==> spec_template_ok(items@[k].path),
                forall|i: int|
                    0 <= i < idx ==> item_map@.contains_key(#[trigger] items.key_seq()[i]),
                forall|k: Seq<char>, kc: Seq<Seq<char>>|
                    item_map@.contains_key(k) && #[trigger] spec_root_chain(items@, kc, k)
                        ==> spec_chain_matches(
                        spec_node_models(nodes@),
                        item_map@[k] as int,
                        spec_flat_components(items@, kc),
                    ),
                forall|i: int|
                    0 <= i < nodes@.len() && !spec_is_item_node(item_map@, i)
                        ==> spec_default_node_attrs(#[trigger] spec_node_models(nodes@)[i]),
                forall|k: Seq<char>|
                    #[trigger] item_map@.contains_key(k) && (forall|k2: Seq<char>|
                        item_map@.contains_key(k2) && k2 != k ==> item_map@[k2] != item_map@[k])
                        ==> spec_node_attrs_of(
                        spec_node_models(nodes@)[item_map@[k] as int],
                        items@[k],
                    ),
            decreases n - idx,
        {
            let key = items.key_at(idx);
            let chain = collect_chain(&items, key);
            let ghost chain_v = spec_key_views(chain@);
            let mut parent_node: Option<usize> = None;
            let mut c: usize = 0;
            while c < chain.len()
                invariant
                    items@ == self.args_model(),
                    chain_v == spec_key_views(chain@),
                    c <= chain_v.len(),
                    chain_v.len() >= 1,
                    forall|i: int|
                        0 <= i < chain_v.len() ==> items@.contains_key(#[trigger] chain_v[i]),
                    forall|i: int|
                        0 < i < chain_v.len() ==> items@[#[trigger] chain_v[i]].parent == Some(
                            chain_v[i - 1],
                        ),
                    items@[chain_v[0]].parent is None,
                    !spec_has_parent_cycle(items@),
                    spec_parents_present(items@),
                    spec_items_wf(spec_node_models(nodes@)),
                    forall|k: Seq<char>|
                        #[trigger] item_map@.contains_key(k) ==> item_map@[k] < nodes@.len(),
                    forall|k: Seq<char>|
                        #[trigger] item_map@.contains_key(k) ==> items@.contains_key(k),
                    forall|k: Seq<char>|
                        #[trigger] item_map@.contains_key(k) ==> spec_template_ok(items@[k].path),
                    forall|i: int|
                        0 <= i < idx ==> item_map@.contains_key(#[trigger] items.key_seq()[i]),
                    forall|l: int| 0 <= l < c ==> item_map@.contains_key(#[trigger] chain_v[l]),
                    parent_node matches Some(pn) ==> pn < nodes@.len(),
                    c == 0 ==> parent_node is None,
                    c > 0 ==> (parent_node matches Some(pn) && item_map@.contains_key(
                        chain_v[c - 1],
                    ) && pn == item_map@[chain_v[c - 1]]),
                    forall|k: Seq<char>, kc: Seq<Seq<char>>|
                        item_map@.contains_key(k) && #[trigger] spec_root_chain(items@, kc, k)
                            ==> spec_chain_matches(
                            spec_node_models(nodes@),
                            item_map@[k] as int,
                            spec_flat_components(items@, kc),
                        ),
                    forall|i: int|
                        0 <= i < nodes@.len() && !spec_is_item_node(item_map@, i)
                            ==> spec_default_node_attrs(#[trigger] spec_node_models(nodes@)[i]),
                    forall|k: Seq<char>|
                        #[trigger] item_map@.contains_key(k) && (forall|k2: Seq<char>|
                            item_map@.contains_key(k2) && k2 != k ==> item_map@[k2]
                                != item_map@[k]) ==> spec_node_attrs_of(
                            spec_node_models(nodes@)[item_map@[k] as int],
                            items@[k],
                        ),
                decreases chain_v.len() - c,
            {
                let ck = &chain[c];
                proof {
                    assert(ck@ == chain_v[c as int]);
                    assert(items@.contains_key(chain_v[c as int]));
                }
                let existing = item_map.get(ck);
                match existing {
                    Some(id) => {
                        parent_node = Some(*id);
                    },
                    None => {
                        let args = match items.get(ck) {
                            Some(a) => a,
                            None => {
                                proof {
                                    assert(items@.contains_key(ck@));
                                    assert(false);
                                }
                                return Err(Error::ParseError("Empty path"));
                            },
                        };
                        let ghost ck_v = ck@;
                        let ghost flat_pre = spec_flat_components(items@, chain_v.take(c as int));
                        proof {
                            if c == 0 {
                                assert(chain_v.take(0) =~= Seq::<Seq<char>>::empty());
                                assert(flat_pre =~= Seq::<Seq<char>>::empty());
                            } else {
                                let kc0 = chain_v.take(c as int);
                                assert(kc0.len() == c);
                                assert(kc0[kc0.len() - 1] == chain_v[c - 1]);
                                assert forall|i: int| 0 <= i < kc0.len() implies items@.contains_key(
                                    #[trigger] kc0[i],
                                ) by {
                                    assert(kc0[i] == chain_v[i]);
                                }
                                assert forall|i: int| 0 < i < kc0.len() implies items@[
                                    #[trigger] kc0[i]
                                ].parent == Some(kc0[i - 1]) by {
                                    assert(kc0[i] == chain_v[i]);
                                    assert(kc0[i - 1] == chain_v[i - 1]);
                                }
                                assert(kc0[0] == chain_v[0]);
                                assert(spec_root_chain(items@, kc0, chain_v[c - 1]));
                                assert(spec_chain_matches(
                                    spec_node_models(nodes@),
                                    item_map@[chain_v[c - 1]] as int,
                                    flat_pre,
                                ));
                                assert(kc0.drop_last() =~= chain_v.take(c - 1));
                                assert(kc0.last() == chain_v[c - 1]);
                                assert(flat_pre == spec_flat_components(items@, chain_v.take(c - 1))
                                    + spec_components(items@[chain_v[c - 1]].path));
                                assert(spec_template_ok(items@[chain_v[c - 1]].path));
                                assert(flat_pre.len() >= 1);
                            }
                        }
                        let comps = split_components(&str_to_chars(args.path.as_str()));
                        let ghost comps_v = spec_components(items@[ck_v].path);
                        if comps.len() == 0 {
                            proof {
                                assert(items@[ck_v].path == args.path@);
                                assert(!spec_template_ok(items@[ck_v].path));
                                assert(!spec_templates_ok(items@)) by {
                                    assert(items@.contains_key(ck_v) && !spec_template_ok(
                                        items@[ck_v].path,
                                    ));
                                }
                            }
                            return Err(Error::ParseError("Empty path"));
                        }
                        let mut j: usize = 0;
                        while j < comps.len()
                            invariant
                                items@ == self.args_model(),
                                j <= comps@.len(),
                                !spec_has_parent_cycle(items@),
                                spec_parents_present(items@),
                                items@.contains_key(ck_v),
                                !item_map@.contains_key(ck_v),
                                args@ == items@[ck_v],
                                comps_v == spec_components(items@[ck_v].path),
                                comps@.len() == comps_v.len(),
                                comps@.len() >= 1,
                                forall|l: int|
                                    0 <= l < comps@.len() ==> (#[trigger] comps@[l])@
                                        == spec_components(items@[ck_v].path)[l],
                                forall|l: int|
                                    0 <= l < j ==> spec_tokenize(
                                        #[trigger] spec_components(items@[ck_v].path)[l],
                                    ) is Ok,
                                j > 0 ==> parent_node is Some,
                                parent_node matches Some(pn) ==> pn < nodes@.len(),
                                spec_items_wf(spec_node_models(nodes@)),
                                forall|k: Seq<char>|
                                    #[trigger] item_map@.contains_key(k) ==> item_map@[k]
                                        < nodes@.len(),
                                forall|k: Seq<char>|
                                    #[trigger] item_map@.contains_key(k) ==> items@.contains_key(
                                        k,
                                    ),
                                flat_pre == spec_flat_components(items@, chain_v.take(c as int)),
                                flat_pre.len() + j == 0 ==> parent_node is None,
                                flat_pre.len() + j > 0 ==> (parent_node matches Some(pn)
                                    && spec_chain_matches(
                                    spec_node_models(nodes@),
                                    pn as int,
                                    flat_pre + comps_v.take(j as int),
                                )),
                                forall|k: Seq<char>, kc: Seq<Seq<char>>|
                                    item_map@.contains_key(k) && #[trigger] spec_root_chain(
                                        items@,
                                        kc,
                                        k,
                                    ) ==> spec_chain_matches(
                                        spec_node_models(nodes@),
                                        item_map@[k] as int,
                                        spec_flat_components(items@, kc),
                                    ),
                                forall|i: int|
                                    0 <= i < nodes@.len() && !spec_is_item_node(item_map@, i) && !(
                                    j == comps_v.len() && spec_opt_int(parent_node) == Some(i))
                                        ==> spec_default_node_attrs(
                                        #[trigger] spec_node_models(nodes@)[i],
                                    ),
                                forall|k: Seq<char>|
                                    #[trigger] item_map@.contains_key(k) && (forall|k2: Seq<char>|
                                        item_map@.contains_key(k2) && k2 != k ==> item_map@[k2]
                                            != item_map@[k]) && !(j == comps_v.len()
                                        && spec_opt_int(parent_node) == Some(
                                        item_map@[k] as int,
                                    )) ==> spec_node_attrs_of(
                                        spec_node_models(nodes@)[item_map@[k] as int],
                                        items@[k],
                                    ),
                                j == comps_v.len() ==> (parent_node matches Some(pn)
                                    && spec_node_attrs_of(
                                    spec_node_models(nodes@)[pn as int],
                                    items@[ck_v],
                                )),
                            decreases comps@.len() - j,
                        {
                            let tokens = match tokens_from_chars(&comps[j]) {
                                Ok(t) => t,
                                Err(e) => {
                                    proof {
                                        assert(spec_tokenize(
                                            spec_components(items@[ck_v].path)[j as int],
                                        ) is Err);
                                        assert(!spec_template_ok(items@[ck_v].path));
                                        assert(!spec_templates_ok(items@)) by {
                                            assert(items@.contains_key(ck_v) && !spec_template_ok(
                                                items@[ck_v].path,
                                            ));
                                        }
                                        assert(e matches Error::ParseError(msg) && (exists|
                                            jj: int,
                                        |
                                            0 <= jj < spec_components(items@[ck_v].path).len() && ((
                                            #[trigger] spec_tokenize(
                                                spec_components(items@[ck_v].path)[jj],
                                            )) matches Err(te) && msg@ == spec_tokenize_error_text(
                                                te,
                                            ))));
                                    }
                                    return Err(e);
                                },
                            };
                            let ghost prefix = flat_pre + comps_v.take(j as int);
                            let ghost prefix2 = flat_pre + comps_v.take(j + 1);
                            proof {
                                assert(spec_tokenize(comps_v[j as int]) is Ok);
                                assert(tokens@ == spec_tokenize(comps_v[j as int])->Ok_0);
                                assert(comps_v.take(j + 1) =~= comps_v.take(j as int).push(
                                    comps_v[j as int],
                                ));
                                assert(prefix2 =~= prefix.push(comps_v[j as int]));
                            }
                            let last = j == comps.len() - 1;
                            let node_perm: Permission = if last {
                                args.permission
                            } else {
                                Permission::Inherit
                            };
                            let node_owner: Owner = if last {
                                args.owner
                            } else {
                                Owner::Inherit
                            };
                            let node_ptype: PathType = if last {
                                args.path_type
                            } else {
                                PathType::Directory
                            };
                            let node_deferred: bool = if last {
                                args.deferred
                            } else {
                                false
                            };
                            let node_metadata: std::sync::Arc<MetadataMap> = if last {
                                share_arc(&args.metadata)
                            } else {
                                std::sync::Arc::new(MetadataMap::new())
                            };
                            match find_child_node(&nodes, parent_node, &tokens) {
                                Some(e) => {
                                    proof {
                                        let nm = spec_node_models(nodes@);
                                        assert(nm[e as int].parent == spec_opt_int(parent_node));
                                        assert(nm[e as int].path == tokens@);
                                        assert(spec_chain_matches(nm, e as int, prefix2)) by {
                                            let ch = spec_chain(nm, e as int);
                                            if prefix.len() == 0 {
                                                assert(parent_node is None);
                                                assert(nm[e as int].parent is None);
                                                assert(ch =~= seq![e as int]);
                                                assert(prefix2 =~= seq![comps_v[j as int]]);
                                                assert(ch[0] == e as int);
                                            } else {
                                                let pn0 = parent_node->0;
                                                let chp = spec_chain(nm, pn0 as int);
                                                assert(spec_chain_matches(nm, pn0 as int, prefix));
                                                assert(ch =~= chp.push(e as int));
                                                assert forall|t: int|
                                                    0 <= t < prefix2.len() implies 0 <= #[trigger] ch[t]
                                                    < nm.len() && nm[ch[t]].path == spec_tokenize(
                                                    prefix2[t],
                                                )->Ok_0 by {
                                                    if t < prefix.len() {
                                                        assert(ch[t] == chp[t]);
                                                        assert(prefix2[t] == prefix[t]);
                                                    } else {
                                                        assert(ch[t] == e as int);
                                                        assert(prefix2[t] == comps_v[j as int]);
                                                    }
                                                }
                                            }
                                        }
                                    }
                                    if last {
                                        let ghost before = spec_node_models(nodes@);
                                        let par = nodes[e].parent;
                                        proof {
                                            assert(spec_opt_int(par) == before[e as int].parent);
                                        }
                                        nodes.set(
                                            e,
                                            PathItem {
                                                path: tokens,
                                                parent: par,
                                                permission: node_perm,
                                                owner: node_owner,
                                                path_type: node_ptype,
                                                deferred: node_deferred,
                                                metadata: node_metadata,
                                            },
                                        );
                                        proof {
                                            let after = spec_node_models(nodes@);
                                            assert(after.len() == before.len());
                                            assert(after =~= before.update(
                                                e as int,
                                                after[e as int],
                                            ));
                                            assert(after[e as int].parent
                                                == before[e as int].parent);
                                            assert(after[e as int].path == before[e as int].path);
                                            assert forall|x: int|
                                                0 <= x < before.len() implies spec_items_wf(after)
                                                && spec_chain(after, x) == spec_chain(before, x) by {
                                                lemma_chain_update_frame(
                                                    before,
                                                    e as int,
                                                    after[e as int],
                                                    x,
                                                );
                                            }
                                            assert(spec_chain_matches(after, e as int, prefix2))
                                                by {
                                                let ch = spec_chain(before, e as int);
                                                assert(spec_chain(after, e as int) == ch);
                                                assert forall|t: int|
                                                    0 <= t < prefix2.len() implies 0 <= #[trigger] ch[t]
                                                    < after.len() && after[ch[t]].path
                                                    == spec_tokenize(prefix2[t])->Ok_0 by {
                                                    if ch[t] != e as int {
                                                        assert(after[ch[t]] == before[ch[t]]);
                                                    }
                                                }
                                            }
                                            assert forall|k2: Seq<char>, kc: Seq<Seq<char>>|
                                                item_map@.contains_key(k2)
                                                && #[trigger] spec_root_chain(items@, kc, k2) implies
                                                spec_chain_matches(
                                                after,
                                                item_map@[k2] as int,
                                                spec_flat_components(items@, kc),
                                            ) by {
                                                let x = item_map@[k2] as int;
                                                assert(spec_chain_matches(
                                                    before,
                                                    x,
                                                    spec_flat_components(items@, kc),
                                                ));
                                                let ch = spec_chain(before, x);
                                                assert(spec_chain(after, x) == ch);
                                                let cs = spec_flat_components(items@, kc);
                                                assert forall|t: int|
                                                    0 <= t < cs.len() implies 0 <= #[trigger] ch[t]
                                                    < after.len() && after[ch[t]].path
                                                    == spec_tokenize(cs[t])->Ok_0 by {
                                                    if ch[t] != e as int {
                                                        assert(after[ch[t]] == before[ch[t]]);
                                                    }
                                                }
                                            }
                                            assert(spec_node_attrs_of(
                                                after[e as int],
                                                items@[ck_v],
                                            ));
                                            assert forall|i: int|
                                                0 <= i < after.len() && i != e as int implies
                                                #[trigger] after[i] == before[i] by {}
                                        }
                                    }
                                    parent_node = Some(e);
                                },
                                None => {
                                    let new_idx = nodes.len();
                                    let ghost before = spec_node_models(nodes@);
                                    nodes.push(
                                        PathItem {
                                            path: tokens,
                                            parent: parent_node,
                                            permission: node_perm,
                                            owner: node_owner,
                                            path_type: node_ptype,
                                            deferred: node_deferred,
                                            metadata: node_metadata,
                                        },
                                    );
                                    proof {
                                        let after = spec_node_models(nodes@);
                                        assert(after.len() == before.len() + 1);
                                        assert(after =~= before.push(after[before.len() as int]));
                                        assert(after[new_idx as int].parent == spec_opt_int(
                                            parent_node,
                                        ));
                                        assert(after[new_idx as int].path == tokens@);
                                        assert forall|x: int|
                                            0 <= x < before.len() implies spec_items_wf(after)
                                            && spec_chain(after, x) == spec_chain(before, x) by {
                                            lemma_chain_push_frame(
                                                before,
                                                after[before.len() as int],
                                                x,
                                            );
                                        }
                                        if before.len() == 0 {
                                            assert(spec_items_wf(after)) by {
                                                assert forall|i: int|
                                                    0 <= i < after.len() implies (
                                                #[trigger] after[i].parent matches Some(p) ==> 0
                                                    <= p < i) by {
                                                    assert(i == 0);
                                                    assert(after[0].parent == spec_opt_int(
                                                        parent_node,
                                                    ));
                                                }
                                            }
                                        }
                                        assert(spec_chain_matches(after, new_idx as int, prefix2))
                                            by {
                                            let ch = spec_chain(after, new_idx as int);
                                            if prefix.len() == 0 {
                                                assert(parent_node is None);
                                                assert(ch =~= seq![new_idx as int]);
                                                assert(prefix2 =~= seq![comps_v[j as int]]);
                                                assert(ch[0] == new_idx as int);
                                            } else {
                                                let pn0 = parent_node->0;
                                                assert(spec_chain_matches(
                                                    before,
                                                    pn0 as int,
                                                    prefix,
                                                ));
                                                let chp = spec_chain(after, pn0 as int);
                                                assert(chp == spec_chain(before, pn0 as int));
                                                assert(ch =~= chp.push(new_idx as int));
                                                assert forall|t: int|
                                                    0 <= t < prefix2.len() implies 0 <= #[trigger] ch[t]
                                                    < after.len() && after[ch[t]].path
                                                    == spec_tokenize(prefix2[t])->Ok_0 by {
                                                    if t < prefix.len() {
                                                        assert(ch[t] == chp[t]);
                                                        assert(prefix2[t] == prefix[t]);
                                                        assert(after[ch[t]] == before[ch[t]]);
                                                    } else {
                                                        assert(ch[t] == new_idx as int);
                                                        assert(prefix2[t] == comps_v[j as int]);
                                                    }
                                                }
                                            }
                                        }
                                        assert forall|k2: Seq<char>, kc: Seq<Seq<char>>|
                                            item_map@.contains_key(k2)
                                            && #[trigger] spec_root_chain(items@, kc, k2) implies
                                            spec_chain_matches(
                                            after,
                                            item_map@[k2] as int,
                                            spec_flat_components(items@, kc),
                                        ) by {
                                            let x = item_map@[k2] as int;
                                            assert(spec_chain_matches(
                                                before,
                                                x,
                                                spec_flat_components(items@, kc),
                                            ));
                                            let ch = spec_chain(before, x);
                                            assert(spec_chain(after, x) == ch);
                                            let cs = spec_flat_components(items@, kc);
                                            assert forall|t: int|
                                                0 <= t < cs.len() implies 0 <= #[trigger] ch[t]
                                                < after.len() && after[ch[t]].path == spec_tokenize(
                                                cs[t],
                                            )->Ok_0 by {
                                                assert(after[ch[t]] == before[ch[t]]);
                                            }
                                        }
                                        assert forall|i: int|
                                            0 <= i < before.len() implies #[trigger] after[i]
                                            == before[i] by {}
                                        if !last {
                                            assert(spec_default_node_attrs(
                                                after[new_idx as int],
                                            ));
                                        } else {
                                            assert(spec_node_attrs_of(
                                                after[new_idx as int],
                                                items@[ck_v],
                                            ));
                                        }
                                    }
                                    parent_node = Some(new_idx);
                                },
                            }
                            j = j + 1;
                        }
                        let pn: usize = match parent_node {
                            Some(pn) => pn,
                            None => {
                                proof {
                                    assert(false);
                                }
                                0
                            },
                        };
                        proof {
                            assert(spec_template_ok(items@[ck_v].path));
                        }
                        let ghost old_map = item_map@;
                        let ghost nm_fin = spec_node_models(nodes@);
                        let ghost kcc = chain_v.take(c + 1);
                        proof {
                            assert(kcc.len() == c + 1);
                            assert forall|i: int| 0 <= i < kcc.len() implies items@.contains_key(
                                #[trigger] kcc[i],
                            ) by {
                                assert(kcc[i] == chain_v[i]);
                            }
                            assert forall|i: int| 0 < i < kcc.len() implies items@[
                                #[trigger] kcc[i]
                            ].parent == Some(kcc[i - 1]) by {
                                assert(kcc[i] == chain_v[i]);
                                assert(kcc[i - 1] == chain_v[i - 1]);
                            }
                            assert(kcc[0] == chain_v[0]);
                            assert(kcc[kcc.len() - 1] == chain_v[c as int]);
                            assert(spec_root_chain(items@, kcc, ck_v));
                            assert(kcc.drop_last() =~= chain_v.take(c as int));
                            assert(kcc.last() == chain_v[c as int]);
                            assert(comps_v.take(comps_v.len() as int) =~= comps_v);
                            assert(spec_flat_components(items@, kcc) == flat_pre + comps_v);
                            assert(spec_chain_matches(
                                nm_fin,
                                pn as int,
                                spec_flat_components(items@, kcc),
                            ));
                            assert(spec_node_attrs_of(nm_fin[pn as int], items@[ck_v]));
                        }
                        item_map.insert(ck.clone(), pn);
                        proof {
                            assert(item_map@ =~= old_map.insert(ck_v, pn));
                            assert forall|k2: Seq<char>, kc: Seq<Seq<char>>|
                                item_map@.contains_key(k2) && #[trigger] spec_root_chain(
                                    items@,
                                    kc,
                                    k2,
                                ) implies spec_chain_matches(
                                nm_fin,
                                item_map@[k2] as int,
                                spec_flat_components(items@, kc),
                            ) by {
                                if k2 == ck_v {
                                    lemma_root_chain_unique(items@, kc, kcc, ck_v);
                                    assert(item_map@[k2] == pn);
                                } else {
                                    assert(old_map.contains_key(k2));
                                    assert(item_map@[k2] == old_map[k2]);
                                }
                            }
                            assert forall|i: int|
                                0 <= i < nm_fin.len() && !spec_is_item_node(item_map@, i) implies
                                spec_default_node_attrs(#[trigger] nm_fin[i]) by {
                                if i != pn as int {
                                    assert(!spec_is_item_node(old_map, i)) by {
                                        if spec_is_item_node(old_map, i) {
                                            let kk = choose|kk: Seq<char>|
                                                old_map.contains_key(kk) && old_map[kk] as int
                                                    == i;
                                            assert(item_map@.contains_key(kk) && item_map@[kk] as int
                                                == i);
                                        }
                                    }
                                } else {
                                    assert(item_map@.contains_key(ck_v) && item_map@[ck_v] as int
                                        == i);
                                    assert(spec_is_item_node(item_map@, i));
                                }
                            }
                            assert forall|k2: Seq<char>|
                                #[trigger] item_map@.contains_key(k2) && (forall|k3: Seq<char>|
                                    item_map@.contains_key(k3) && k3 != k2 ==> item_map@[k3]
                                        != item_map@[k2]) implies spec_node_attrs_of(
                                nm_fin[item_map@[k2] as int],
                                items@[k2],
                            ) by {
                                if k2 == ck_v {
                                    assert(item_map@[k2] == pn);
                                } else {
                                    assert(old_map.contains_key(k2));
                                    assert(item_map@[k2] == old_map[k2]);
                                    assert forall|k3: Seq<char>|
                                        old_map.contains_key(k3) && k3 != k2 implies old_map[k3]
                                        != old_map[k2] by {
                                        assert(item_map@.contains_key(k3) && item_map@[k3]
                                            == old_map[k3]);
                                    }
                                    assert(item_map@.contains_key(ck_v) && ck_v != k2);
                                    assert(item_map@[ck_v] != item_map@[k2]);
                                    assert(old_map[k2] != pn);
                                }
                            }
                        }
                    },
                }
                c = c + 1;
            }
            proof {
                assert(chain_v[chain_v.len() - 1] == key@);
                assert(item_map@.contains_key(key@));
                assert(items.key_seq()[idx as int] == key@);
            }
            idx = idx + 1;
        }
        proof {
            assert forall|k: Seq<char>| items@.contains_key(k) implies item_map@.contains_key(
                k,
            ) by {
                items.lemma_contains(k);
                let i = choose|i: int|
                    0 <= i < items.key_seq().len() && items.key_seq()[i] == k;
                assert(item_map@.contains_key(items.key_seq()[i]));
            }
            assert(spec_templates_ok(items@));
        }
        Ok(Config { resolvers, items: nodes, item_map, template_map })
    }
}

} // verus!
