//! General category sets: the sets of codepoints by general category, the
//! unassigned codepoints, the groups of related categories, and the choice
//! of what to emit.

use crate::aggregate::{
    aggregate, lemma_groups_disjoint, lemma_members_assigned, unassigned, Grouping,
};
use crate::aliases::{canonicals_in, listed, names_for, Listing, PropertyValues, Tables};
use crate::buckets::Buckets;
use crate::error::Error;
use crate::expand::{codepoints_of, expand, expanded, record_views, RecordView, CATEGORY_FIELD};
use crate::line::{split_bytes, split_trimmed};
use crate::range_set::{all_codepoints, RangeSet};
use crate::record::{row_views, Row, RowView};
use crate::text::{ascending, holds, views};
use vstd::prelude::*;
use vstd::string::StringSliceAdditionalSpecFns;

verus! {

/// `,`, which separates the names of a list.
pub const COMMA: u8 = 0x2c;

/// The name by which the general category property is asked for.
pub open spec fn gc() -> Seq<u8> {
    "gc".spec_bytes()
}

/// The canonical names of the values that `names` name, in order, if every
/// one of them is known.
pub open spec fn canonical_names(tables: Tables, property: Seq<u8>, names: Seq<Seq<u8>>) -> Option<
    Seq<Seq<u8>>,
> {
    if forall|k: int| 0 <= k < names.len() ==> tables.resolve(property, #[trigger] names[k])
        is Some {
        Some(Seq::new(names.len(), |k: int| tables.resolve(property, names[k]).unwrap()))
    } else {
        None
    }
}

/// The canonical names of the general categories that a list names. The
/// names of the list are separated by commas, and may be aliases.
pub fn canonical_list(tables: &PropertyValues, list: &[u8]) -> (r: Result<Vec<Vec<u8>>, Error>)
    ensures
        match r {
            Ok(names) => canonical_names(tables@, gc(), split_trimmed(list@, COMMA)) == Some(
                views(names@),
            ),
            Err(e) => e == Error::UnknownPropertyValue && canonical_names(
                tables@,
                gc(),
                split_trimmed(list@, COMMA),
            ) is None,
        },
{
    let names = split_bytes(list, list.len(), COMMA);
    assert(list@.take(list.len() as int) =~= list@);
    let ghost wanted = views(names@);
    let mut out: Vec<Vec<u8>> = Vec::new();
    let mut k: usize = 0;
    while k < names.len()
        invariant
            k <= names.len(),
            wanted == views(names@),
            wanted == split_trimmed(list@, COMMA),
            out@.len() == k,
            forall|i: int|
                0 <= i < k ==> tables@.resolve(gc(), #[trigger] wanted[i]) == Some(out@[i]@),
        decreases names.len() - k,
    {
        assert(wanted[k as int] == names@[k as int]@);
        match tables.canonical("gc".as_bytes(), names[k].as_slice()) {
            Err(e) => {
                return Err(e);
            },
            Ok(name) => {
                out.push(name);
            },
        }
        k += 1;
    }
    assert(views(out@) =~= Seq::new(
        wanted.len(),
        |i: int| tables@.resolve(gc(), wanted[i]).unwrap(),
    ));
    Ok(out)
}

/// Which categories to emit: none of those in `except`, and of the others
/// all, or those in `only` where it names any.
#[derive(Debug)]
pub struct Selection {
    pub only: Vec<Vec<u8>>,
    pub except: Vec<Vec<u8>>,
}

/// A selection as a value.
pub struct SelectionView {
    pub only: Seq<Seq<u8>>,
    pub except: Seq<Seq<u8>>,
}

impl SelectionView {
    /// Whether the category `name` is emitted.
    pub open spec fn emits(self, name: Seq<u8>) -> bool {
        !self.except.contains(name) && (self.only.len() == 0 || self.only.contains(name))
    }

    /// The names that are emitted.
    pub open spec fn emitted(self) -> Set<Seq<u8>> {
        Set::new(|n: Seq<u8>| self.emits(n))
    }
}

impl View for Selection {
    type V = SelectionView;

    open spec fn view(&self) -> SelectionView {
        SelectionView { only: views(self.only@), except: views(self.except@) }
    }
}

/// The bytes behind an optional argument.
pub open spec fn given(arg: Option<&[u8]>) -> Option<Seq<u8>> {
    match arg {
        Some(s) => Some(s@),
        None => None,
    }
}

/// The canonical names that an optional list names; none where there is no
/// list.
pub open spec fn listed_names(tables: Tables, arg: Option<Seq<u8>>) -> Option<Seq<Seq<u8>>> {
    match arg {
        None => Some(Seq::empty()),
        Some(list) => canonical_names(tables, gc(), split_trimmed(list, COMMA)),
    }
}

/// The selection that the two lists ask for, if every name in them is known.
pub open spec fn selection_of(
    tables: Tables,
    only: Option<Seq<u8>>,
    except: Option<Seq<u8>>,
) -> Option<SelectionView> {
    match (listed_names(tables, only), listed_names(tables, except)) {
        (Some(i), Some(e)) => Some(SelectionView { only: i, except: e }),
        _ => None,
    }
}

impl Selection {
    /// The selection that the two lists ask for. Each is a list of general
    /// categories, by any of their names, separated by commas.
    pub fn new(tables: &PropertyValues, only: Option<&[u8]>, except: Option<&[u8]>) -> (r:
        Result<Selection, Error>)
        ensures
            match r {
                Ok(selection) => selection_of(tables@, given(only), given(except)) == Some(
                    selection@,
                ),
                Err(e) => e == Error::UnknownPropertyValue && selection_of(
                    tables@,
                    given(only),
                    given(except),
                ) is None,
            },
    {
        let only = match only {
            None => {
                let none: Vec<Vec<u8>> = Vec::new();
                assert(views(none@) =~= Seq::<Seq<u8>>::empty());
                none
            },
            Some(list) => match canonical_list(tables, list) {
                Err(e) => {
                    return Err(e);
                },
                Ok(names) => names,
            },
        };
        let except = match except {
            None => {
                let none: Vec<Vec<u8>> = Vec::new();
                assert(views(none@) =~= Seq::<Seq<u8>>::empty());
                none
            },
            Some(list) => match canonical_list(tables, list) {
                Err(e) => {
                    return Err(e);
                },
                Ok(names) => names,
            },
        };
        Ok(Selection { only, except })
    }

    /// Whether the category `name` is emitted.
    pub fn should_emit_cat(&self, name: &[u8]) -> (b: bool)
        ensures
            b == self@.emits(name@),
    {
        if holds(&self.except, name) {
            return false;
        }
        assert(views(self.only@).len() == self.only@.len());
        self.only.len() == 0 || holds(&self.only, name)
    }
}

/// The buckets of `buckets` that `selection` emits.
pub fn select(buckets: &Buckets, selection: &Selection) -> (r: Buckets)
    requires
        buckets.wf(),
    ensures
        r.wf(),
        r@ == buckets@.restrict(selection@.emitted()),
{
    let ghost names = buckets.names();
    let ghost sel = selection@;
    let mut out = Buckets::new();
    let mut i: usize = 0;
    proof {
        let t0 = names.take(0);
        assert(out@ =~= buckets@.restrict(Set::new(|n: Seq<u8>| sel.emits(n) && t0.contains(n))));
    }
    while i < buckets.len()
        invariant
            i <= buckets.names().len(),
            names == buckets.names(),
            sel == selection@,
            buckets.wf(),
            out.wf(),
            out@ == buckets@.restrict(
                Set::new(|n: Seq<u8>| sel.emits(n) && names.take(i as int).contains(n)),
            ),
        decreases buckets.names().len() - i,
    {
        let ghost before = out@;
        let name = buckets.name(i);
        if selection.should_emit_cat(name.as_slice()) {
            out.insert(name.as_slice(), buckets.set(i).duplicate());
        }
        proof {
            buckets.lemma_entries();
            let t0 = names.take(i as int);
            let t1 = names.take(i + 1);
            let head = Set::new(|n: Seq<u8>| sel.emits(n) && t0.contains(n));
            let more = Set::new(|n: Seq<u8>| sel.emits(n) && t1.contains(n));
            assert forall|n: Seq<u8>| t1.contains(n) <==> (t0.contains(n) || n
                == names[i as int]) by {
                if t1.contains(n) {
                    let k = choose|k: int| 0 <= k < t1.len() && t1[k] == n;
                    if k < i {
                        assert(t0[k] == n);
                    }
                }
                if t0.contains(n) {
                    let k = choose|k: int| 0 <= k < t0.len() && t0[k] == n;
                    assert(t1[k] == n);
                }
                if n == names[i as int] {
                    assert(t1[i as int] == n);
                }
            }
            assert(out@ =~= buckets@.restrict(more));
        }
        i += 1;
    }
    proof {
        buckets.lemma_entries();
        assert(names.take(i as int) =~= names);
        assert(out@ =~= buckets@.restrict(sel.emitted()));
    }
    out
}

/// The groups of related general categories: each a name and the list of
/// the categories that make it up, all as they are asked for.
pub open spec fn group_table() -> Seq<(Seq<u8>, Seq<u8>)> {
    seq![
        ("Cased_Letter".spec_bytes(), "lu,ll,lt".spec_bytes()),
        ("Letter".spec_bytes(), "lu,ll,lt,lm,lo".spec_bytes()),
        ("Mark".spec_bytes(), "mn,mc,me".spec_bytes()),
        ("Number".spec_bytes(), "nd,nl,no".spec_bytes()),
        ("Punctuation".spec_bytes(), "pc,pd,ps,pe,pi,pf,po".spec_bytes()),
        ("Symbol".spec_bytes(), "sm,sc,sk,so".spec_bytes()),
        ("Separator".spec_bytes(), "zs,zl,zp".spec_bytes()),
        ("Other".spec_bytes(), "cc,cf,cs,co,cn".spec_bytes()),
    ]
}

/// A group by canonical names, if its name and all its components are known.
pub open spec fn group_of(tables: Tables, name: Seq<u8>, components: Seq<u8>) -> Option<
    (Seq<u8>, Seq<Seq<u8>>),
> {
    match (
        tables.resolve(gc(), name),
        canonical_names(tables, gc(), split_trimmed(components, COMMA)),
    ) {
        (Some(n), Some(c)) => Some((n, c)),
        _ => None,
    }
}

/// Whether the tables know every name that the groups of related
/// categories use.
pub open spec fn knows_related(tables: Tables) -> bool {
    forall|g: int|
        0 <= g < group_table().len() ==> group_of(
            tables,
            (#[trigger] group_table()[g]).0,
            group_table()[g].1,
        ) is Some
}

/// The groups of related categories, by canonical names.
pub open spec fn related_groups(tables: Tables) -> Seq<(Seq<u8>, Seq<Seq<u8>>)> {
    Seq::new(
        group_table().len(),
        |g: int| group_of(tables, group_table()[g].0, group_table()[g].1).unwrap(),
    )
}

/// A list of groups as values.
pub open spec fn group_views(groups: Seq<(Vec<u8>, Vec<Vec<u8>>)>) -> Seq<(Seq<u8>, Seq<Seq<u8>>)> {
    Seq::new(groups.len(), |g: int| (groups[g].0@, views(groups[g].1@)))
}

/// The group table as it is written.
fn group_literals() -> (r: Vec<(&'static str, &'static str)>)
    ensures
        r@.len() == group_table().len(),
        forall|g: int|
            0 <= g < r@.len() ==> ((#[trigger] r@[g]).0.spec_bytes(), r@[g].1.spec_bytes())
                == group_table()[g],
{
    let r = vec![
        ("Cased_Letter", "lu,ll,lt"),
        ("Letter", "lu,ll,lt,lm,lo"),
        ("Mark", "mn,mc,me"),
        ("Number", "nd,nl,no"),
        ("Punctuation", "pc,pd,ps,pe,pi,pf,po"),
        ("Symbol", "sm,sc,sk,so"),
        ("Separator", "zs,zl,zp"),
        ("Other", "cc,cf,cs,co,cn"),
    ];
    r
}

/// One group by canonical names.
pub fn group(tables: &PropertyValues, name: &[u8], components: &[u8]) -> (r: Result<
    (Vec<u8>, Vec<Vec<u8>>),
    Error,
>)
    ensures
        match r {
            Ok(g) => group_of(tables@, name@, components@) == Some((g.0@, views(g.1@))),
            Err(e) => e == Error::UnknownPropertyValue && group_of(tables@, name@, components@)
                is None,
        },
{
    let canonical = match tables.canonical("gc".as_bytes(), name) {
        Err(e) => {
            return Err(e);
        },
        Ok(canonical) => canonical,
    };
    match canonical_list(tables, components) {
        Err(e) => Err(e),
        Ok(list) => Ok((canonical, list)),
    }
}

/// All groups of related general categories, by canonical names, or the
/// failure to name one of them.
pub fn try_related_categories(tables: &PropertyValues) -> (r: Result<
    Vec<(Vec<u8>, Vec<Vec<u8>>)>,
    Error,
>)
    ensures
        match r {
            Ok(groups) => knows_related(tables@) && group_views(groups@) == related_groups(
                tables@,
            ),
            Err(e) => e == Error::UnknownPropertyValue && !knows_related(tables@),
        },
{
    let literals = group_literals();
    let mut out: Vec<(Vec<u8>, Vec<Vec<u8>>)> = Vec::new();
    let mut g: usize = 0;
    while g < literals.len()
        invariant
            g <= literals@.len(),
            literals@.len() == group_table().len(),
            forall|h: int|
                0 <= h < literals@.len() ==> ((#[trigger] literals@[h]).0.spec_bytes(), literals@[h].1.spec_bytes())
                    == group_table()[h],
            out@.len() == g,
            forall|h: int|
                0 <= h < g ==> group_of(
                    tables@,
                    (#[trigger] group_table()[h]).0,
                    group_table()[h].1,
                ) == Some((out@[h].0@, views(out@[h].1@))),
        decreases literals@.len() - g,
    {
        let literal = literals[g];
        assert((literals@[g as int].0.spec_bytes(), literals@[g as int].1.spec_bytes())
            == group_table()[g as int]);
        match group(tables, literal.0.as_bytes(), literal.1.as_bytes()) {
            Err(e) => {
                assert(group_of(tables@, group_table()[g as int].0, group_table()[g as int].1)
                    is None);
                return Err(e);
            },
            Ok(one) => {
                out.push(one);
            },
        }
        g += 1;
    }
    assert(group_views(out@) =~= related_groups(tables@));
    Ok(out)
}

/// All groups of related general categories: for each its canonical name
/// and the canonical names of the categories that make it up. The tables
/// must know every name that the groups use.
pub fn related_categories(tables: &PropertyValues) -> (r: Vec<(Vec<u8>, Vec<Vec<u8>>)>)
    requires
        knows_related(tables@),
    ensures
        group_views(r@) == related_groups(tables@),
{
    match try_related_categories(tables) {
        Ok(groups) => groups,
        Err(_) => {
            proof {
                assert(false);
            }
            Vec::new()
        },
    }
}

/// The codepoints of the categories `components`, taken together. A
/// category without a set adds nothing.
pub open spec fn union_of(cats: Map<Seq<u8>, Set<int>>, components: Seq<Seq<u8>>) -> Set<int> {
    Set::new(
        |cp: int|
            exists|k: int|
                0 <= k < components.len() && cats.contains_key(#[trigger] components[k])
                    && cats[components[k]].contains(cp),
    )
}

/// Whether a group is called `name`.
pub open spec fn has_group(groups: Seq<(Seq<u8>, Seq<Seq<u8>>)>, name: Seq<u8>) -> bool {
    exists|g: int| 0 <= g < groups.len() && (#[trigger] groups[g]).0 == name
}

/// The codepoints of the groups called `name`.
pub open spec fn related_members(
    groups: Seq<(Seq<u8>, Seq<Seq<u8>>)>,
    cats: Map<Seq<u8>, Set<int>>,
    name: Seq<u8>,
) -> Set<int> {
    Set::new(
        |cp: int|
            exists|g: int|
                0 <= g < groups.len() && (#[trigger] groups[g]).0 == name && union_of(
                    cats,
                    groups[g].1,
                ).contains(cp),
    )
}

/// For each group name, the union of the sets that `cats` has for the
/// group's components.
pub open spec fn related_sets(
    groups: Seq<(Seq<u8>, Seq<Seq<u8>>)>,
    cats: Map<Seq<u8>, Set<int>>,
) -> Map<Seq<u8>, Set<int>> {
    Map::new(|n: Seq<u8>| has_group(groups, n), |n: Seq<u8>| related_members(groups, cats, n))
}

/// A group whose name no other group has is exactly the union of its
/// components.
pub proof fn lemma_related_is_union(
    groups: Seq<(Seq<u8>, Seq<Seq<u8>>)>,
    cats: Map<Seq<u8>, Set<int>>,
    g: int,
)
    requires
        0 <= g < groups.len(),
        forall|h: int| 0 <= h < groups.len() && h != g ==> (#[trigger] groups[h]).0 != groups[g].0,
    ensures
        related_sets(groups, cats).contains_key(groups[g].0),
        related_sets(groups, cats)[groups[g].0] == union_of(cats, groups[g].1),
{
    let name = groups[g].0;
    assert(has_group(groups, name));
    assert forall|cp: int|
        related_members(groups, cats, name).contains(cp) <==> union_of(cats, groups[g].1).contains(
            cp,
        ) by {
        if related_members(groups, cats, name).contains(cp) {
            let h = choose|h: int|
                0 <= h < groups.len() && (#[trigger] groups[h]).0 == name && union_of(
                    cats,
                    groups[h].1,
                ).contains(cp);
            assert(h == g);
        }
        if union_of(cats, groups[g].1).contains(cp) {
            assert(groups[g].0 == name);
        }
    }
    assert(related_members(groups, cats, name) =~= union_of(cats, groups[g].1));
}

/// One more component adds its set, if it has one.
proof fn lemma_union_of_push(
    cats: Map<Seq<u8>, Set<int>>,
    components: Seq<Seq<u8>>,
    component: Seq<u8>,
)
    ensures
        union_of(cats, components.push(component)) == union_of(cats, components).union(
            if cats.contains_key(component) {
                cats[component]
            } else {
                Set::<int>::empty()
            },
        ),
{
    let more = components.push(component);
    let added = if cats.contains_key(component) {
        cats[component]
    } else {
        Set::<int>::empty()
    };
    assert forall|cp: int| #[trigger]
        union_of(cats, more).contains(cp) <==> (union_of(cats, components).contains(cp)
            || added.contains(cp)) by {
        if union_of(cats, more).contains(cp) {
            let k = choose|k: int|
                0 <= k < more.len() && cats.contains_key(#[trigger] more[k])
                    && cats[more[k]].contains(cp);
            if k < components.len() {
                assert(components[k] == more[k]);
            }
        }
        if union_of(cats, components).contains(cp) {
            let k = choose|k: int|
                0 <= k < components.len() && cats.contains_key(#[trigger] components[k])
                    && cats[components[k]].contains(cp);
            assert(more[k] == components[k]);
        }
        if added.contains(cp) {
            assert(more[components.len() as int] == component);
        }
    }
    assert(union_of(cats, more) =~= union_of(cats, components).union(added));
}

/// One more group adds its union to the set of its name.
proof fn lemma_related_push(
    groups: Seq<(Seq<u8>, Seq<Seq<u8>>)>,
    group: (Seq<u8>, Seq<Seq<u8>>),
    cats: Map<Seq<u8>, Set<int>>,
)
    ensures
        related_sets(groups.push(group), cats) == related_sets(groups, cats).insert(
            group.0,
            (if related_sets(groups, cats).contains_key(group.0) {
                related_sets(groups, cats)[group.0]
            } else {
                Set::<int>::empty()
            }).union(union_of(cats, group.1)),
        ),
{
    let more = groups.push(group);
    let added = union_of(cats, group.1);
    let left = related_sets(more, cats);
    let right = related_sets(groups, cats).insert(
        group.0,
        (if related_sets(groups, cats).contains_key(group.0) {
            related_sets(groups, cats)[group.0]
        } else {
            Set::<int>::empty()
        }).union(added),
    );
    assert(more[groups.len() as int] == group);
    assert forall|n: Seq<u8>| left.contains_key(n) <==> right.contains_key(n) by {
        if has_group(more, n) {
            let g = choose|g: int| 0 <= g < more.len() && (#[trigger] more[g]).0 == n;
            if g < groups.len() {
                assert(groups[g] == more[g]);
            }
        }
        if has_group(groups, n) {
            let g = choose|g: int| 0 <= g < groups.len() && (#[trigger] groups[g]).0 == n;
            assert(more[g] == groups[g]);
        }
    }
    assert forall|n: Seq<u8>| left.contains_key(n) implies left[n] == right[n] by {
        let before = related_members(groups, cats, n);
        assert forall|cp: int|
            related_members(more, cats, n).contains(cp) <==> (before.contains(cp) || (n == group.0
                && added.contains(cp))) by {
            if related_members(more, cats, n).contains(cp) {
                let g = choose|g: int|
                    0 <= g < more.len() && (#[trigger] more[g]).0 == n && union_of(
                        cats,
                        more[g].1,
                    ).contains(cp);
                if g < groups.len() {
                    assert(groups[g] == more[g]);
                }
            }
            if before.contains(cp) {
                let g = choose|g: int|
                    0 <= g < groups.len() && (#[trigger] groups[g]).0 == n && union_of(
                        cats,
                        groups[g].1,
                    ).contains(cp);
                assert(more[g] == groups[g]);
            }
            if n == group.0 && added.contains(cp) {
                assert(more[groups.len() as int].0 == n);
            }
        }
        if n == group.0 {
            if !has_group(groups, n) {
                assert(before =~= Set::<int>::empty());
            }
            assert(related_members(more, cats, n) =~= right[n]);
        } else {
            assert(related_members(more, cats, n) =~= before);
        }
    }
    assert(left =~= right);
}

/// The union of the sets that `cats` has for `components`.
pub fn union_sets(cats: &Buckets, components: &Vec<Vec<u8>>) -> (s: RangeSet)
    requires
        cats.wf(),
    ensures
        s.wf(),
        s@ == union_of(cats@, views(components@)),
{
    let ghost all = views(components@);
    let mut s = RangeSet::new();
    let mut k: usize = 0;
    assert(s@ =~= union_of(cats@, all.take(0)));
    while k < components.len()
        invariant
            k <= components.len(),
            all == views(components@),
            cats.wf(),
            s.wf(),
            s@ == union_of(cats@, all.take(k as int)),
        decreases components.len() - k,
    {
        assert(all[k as int] == components@[k as int]@);
        proof {
            lemma_union_of_push(cats@, all.take(k as int), all[k as int]);
            assert(all.take(k as int).push(all[k as int]) =~= all.take(k + 1));
        }
        match cats.get(components[k].as_slice()) {
            Some(set) => {
                s.union_with(set);
            },
            None => {
                assert(s@.union(Set::<int>::empty()) =~= s@);
            },
        }
        k += 1;
    }
    assert(all.take(k as int) =~= all);
    s
}

/// The sets of the groups `groups`, each the union of the sets that `cats`
/// has for its components.
pub fn related_from(groups: &Vec<(Vec<u8>, Vec<Vec<u8>>)>, cats: &Buckets) -> (r: Buckets)
    requires
        cats.wf(),
    ensures
        r.wf(),
        r@ == related_sets(group_views(groups@), cats@),
{
    let ghost all = group_views(groups@);
    let mut out = Buckets::new();
    let mut g: usize = 0;
    assert(out@ =~= related_sets(all.take(0), cats@));
    while g < groups.len()
        invariant
            g <= groups.len(),
            all == group_views(groups@),
            cats.wf(),
            out.wf(),
            out@ == related_sets(all.take(g as int), cats@),
        decreases groups.len() - g,
    {
        let name = &groups[g].0;
        assert(all[g as int] == (groups@[g as int].0@, views(groups@[g as int].1@)));
        let mut set = union_sets(cats, &groups[g].1);
        proof {
            lemma_related_push(all.take(g as int), all[g as int], cats@);
            assert(all.take(g as int).push(all[g as int]) =~= all.take(g + 1));
        }
        match out.get(name.as_slice()) {
            Some(before) => {
                set.union_with(before);
                assert(set@ =~= out@[name@].union(union_of(cats@, all[g as int].1)));
            },
            None => {
                assert(set@ =~= Set::<int>::empty().union(union_of(cats@, all[g as int].1)));
            },
        }
        out.insert(name.as_slice(), set);
        g += 1;
    }
    assert(all.take(g as int) =~= all);
    out
}

/// The sets of the groups of related general categories. `cats` holds the
/// sets of the general categories by canonical name; a category that it
/// does not hold counts as empty. The tables must know every name that the
/// groups use.
pub fn related(tables: &PropertyValues, cats: &Buckets) -> (r: Buckets)
    requires
        knows_related(tables@),
        cats.wf(),
    ensures
        r.wf(),
        r@ == related_sets(related_groups(tables@), cats@),
{
    let groups = related_categories(tables);
    related_from(&groups, cats)
}

/// How records of `UnicodeData.txt` are grouped: by general category.
pub open spec fn by_category(tables: Tables) -> Grouping {
    Grouping { tables, property: gc(), field: CATEGORY_FIELD as int }
}

/// The groups with the unassigned codepoints under the canonical name of
/// `unassigned`, in place of any group of that name.
pub open spec fn with_unassigned(
    tables: Tables,
    groups: Map<Seq<u8>, Set<int>>,
    records: Seq<RecordView>,
) -> Option<Map<Seq<u8>, Set<int>>> {
    match tables.resolve(gc(), "unassigned".spec_bytes()) {
        None => None,
        Some(name) => Some(
            groups.insert(name, all_codepoints().difference(codepoints_of(records))),
        ),
    }
}

/// The general category sets of the rows of `UnicodeData.txt`.
///
/// The rows are expanded into records, and the records grouped by the
/// canonical name of their general category. The unassigned codepoints are
/// every codepoint that no record is about. Unless an enumeration is asked
/// for, the groups of related categories are added, each the union of its
/// components among the sets so far. Of all these, the selected are kept.
pub open spec fn general_categories(
    tables: Tables,
    rows: Seq<RowView>,
    only: Option<Seq<u8>>,
    except: Option<Seq<u8>>,
    enumerate: bool,
) -> Result<Map<Seq<u8>, Set<int>>, Error> {
    match selection_of(tables, only, except) {
        None => Err(Error::UnknownPropertyValue),
        Some(selection) => match expanded(rows) {
            Err(e) => Err(e),
            Ok(records) => match by_category(tables).aggregated(records) {
                Err(e) => Err(e),
                Ok(groups) => match with_unassigned(tables, groups, records) {
                    None => Err(Error::UnknownPropertyValue),
                    Some(base) => if enumerate {
                        Ok(base.restrict(selection.emitted()))
                    } else if !knows_related(tables) {
                        Err(Error::UnknownPropertyValue)
                    } else {
                        Ok(
                            base.union_prefer_right(
                                related_sets(related_groups(tables), base),
                            ).restrict(selection.emitted()),
                        )
                    },
                },
            },
        },
    }
}

/// No codepoint is in two sets.
pub open spec fn partitioned(sets: Map<Seq<u8>, Set<int>>) -> bool {
    forall|a: Seq<u8>, b: Seq<u8>|
        sets.contains_key(a) && sets.contains_key(b) && a != b ==> (#[trigger] sets[a]).disjoint(
            #[trigger] sets[b],
        )
}

/// In an enumeration no codepoint is emitted in more than one set.
pub proof fn lemma_enumeration_partitions(
    tables: Tables,
    rows: Seq<RowView>,
    only: Option<Seq<u8>>,
    except: Option<Seq<u8>>,
)
    requires
        general_categories(tables, rows, only, except, true) is Ok,
    ensures
        partitioned(general_categories(tables, rows, only, except, true).unwrap()),
{
    let selection = selection_of(tables, only, except).unwrap();
    let records = expanded(rows).unwrap();
    let g = by_category(tables);
    let groups = g.aggregated(records).unwrap();
    let name = tables.resolve(gc(), "unassigned".spec_bytes()).unwrap();
    let rest = all_codepoints().difference(codepoints_of(records));
    let base = groups.insert(name, rest);
    let result = base.restrict(selection.emitted());
    assert forall|a: Seq<u8>, b: Seq<u8>|
        result.contains_key(a) && result.contains_key(b) && a != b implies (
    #[trigger] result[a]).disjoint(#[trigger] result[b]) by {
        if a == name {
            lemma_members_assigned(g, records, b);
        } else if b == name {
            lemma_members_assigned(g, records, a);
        } else {
            lemma_groups_disjoint(g, records, a, b);
        }
    }
}

/// Computes the general category sets of the rows of `UnicodeData.txt`.
/// `only` and `except` are lists of categories, by any of their names,
/// separated by commas: the first restricts what is emitted, the second
/// takes away from it. With `enumerate`, the groups of related categories
/// are left out, and every codepoint lies in at most one of the sets that
/// come out.
///
/// The run fails on the first thing that is wrong, in this order: a name in
/// the lists that is unknown; a stream of rows that does not expand; a row
/// whose category is unknown; tables that do not know `unassigned`; and,
/// unless `enumerate`, tables that do not know a name of the related groups.
pub fn general_category(
    tables: &PropertyValues,
    rows: &Vec<Row>,
    only: Option<&[u8]>,
    except: Option<&[u8]>,
    enumerate: bool,
) -> (r: Result<Buckets, Error>)
    ensures
        match r {
            Ok(buckets) => buckets.wf() && general_categories(
                tables@,
                row_views(rows@),
                given(only),
                given(except),
                enumerate,
            ) == Ok::<Map<Seq<u8>, Set<int>>, Error>(buckets@) && (enumerate ==> partitioned(
                buckets@,
            )),
            Err(e) => general_categories(
                tables@,
                row_views(rows@),
                given(only),
                given(except),
                enumerate,
            ) == Err::<Map<Seq<u8>, Set<int>>, Error>(e),
        },
{
    let selection = match Selection::new(tables, only, except) {
        Err(e) => {
            return Err(e);
        },
        Ok(selection) => selection,
    };
    let records = match expand(rows) {
        Err(e) => {
            return Err(e);
        },
        Ok(records) => records,
    };
    let mut bycat = match aggregate(tables, "gc".as_bytes(), CATEGORY_FIELD, &records) {
        Err(e) => {
            return Err(e);
        },
        Ok(bycat) => bycat,
    };
    let unassigned_name = match tables.canonical("gc".as_bytes(), "unassigned".as_bytes()) {
        Err(e) => {
            return Err(e);
        },
        Ok(name) => name,
    };
    bycat.insert(unassigned_name.as_slice(), unassigned(&records));
    if !enumerate {
        let groups = match try_related_categories(tables) {
            Err(e) => {
                return Err(e);
            },
            Ok(groups) => groups,
        };
        let unions = related_from(&groups, &bycat);
        bycat.merge(&unions);
    }
    let chosen = select(&bycat, &selection);
    proof {
        if enumerate {
            lemma_enumeration_partitions(
                tables@,
                row_views(rows@),
                given(only),
                given(except),
            );
        }
    }
    Ok(chosen)
}

/// The general categories by canonical name, in ascending order, each with
/// the names that stand for it, in ascending order too.
pub fn list_categories(tables: &PropertyValues) -> (r: Result<Vec<Listing>, Error>)
    ensures
        match r {
            Ok(list) => {
                &&& tables@.property(gc()) is Some
                &&& ascending(listed(list@))
                &&& listed(list@).to_set() == canonicals_in(
                    tables@.values,
                    tables@.property(gc()).unwrap(),
                )
                &&& forall|k: int|
                    0 <= k < list@.len() ==> ascending(views((#[trigger] list@[k]).aliases@))
                        && views(list@[k].aliases@).to_set() == names_for(
                        tables@.values,
                        tables@.property(gc()).unwrap(),
                        list@[k].canonical@,
                    )
            },
            Err(e) => e == Error::UnknownPropertyValue && tables@.property(gc()) is None,
        },
{
    tables.list_values("gc".as_bytes())
}

/// The partition property of what is computed: two sets of different
/// names share no codepoint, unless one of them is a group of related
/// categories.
pub proof fn lemma_categories_disjoint(
    tables: Tables,
    rows: Seq<RowView>,
    only: Option<Seq<u8>>,
    except: Option<Seq<u8>>,
    enumerate: bool,
    a: Seq<u8>,
    b: Seq<u8>,
)
    requires
        general_categories(tables, rows, only, except, enumerate) is Ok,
        general_categories(tables, rows, only, except, enumerate).unwrap().contains_key(a),
        general_categories(tables, rows, only, except, enumerate).unwrap().contains_key(b),
        a != b,
        enumerate || (!has_group(related_groups(tables), a) && !has_group(
            related_groups(tables),
            b,
        )),
    ensures
        general_categories(tables, rows, only, except, enumerate).unwrap()[a].disjoint(
            general_categories(tables, rows, only, except, enumerate).unwrap()[b],
        ),
{
    let records = expanded(rows).unwrap();
    let g = by_category(tables);
    let name = tables.resolve(gc(), "unassigned".spec_bytes()).unwrap();
    if a == name {
        lemma_members_assigned(g, records, b);
    } else if b == name {
        lemma_members_assigned(g, records, a);
    } else {
        lemma_groups_disjoint(g, records, a, b);
    }
}

/// What a group of related categories holds in what is computed: the
/// union of its components among the category sets and the unassigned
/// codepoints.
pub proof fn lemma_related_in_result(
    tables: Tables,
    rows: Seq<RowView>,
    only: Option<Seq<u8>>,
    except: Option<Seq<u8>>,
    name: Seq<u8>,
)
    requires
        general_categories(tables, rows, only, except, false) is Ok,
        general_categories(tables, rows, only, except, false).unwrap().contains_key(name),
        has_group(related_groups(tables), name),
    ensures
        general_categories(tables, rows, only, except, false).unwrap()[name] == related_members(
            related_groups(tables),
            with_unassigned(
                tables,
                by_category(tables).aggregated(expanded(rows).unwrap()).unwrap(),
                expanded(rows).unwrap(),
            ).unwrap(),
            name,
        ),
{
}

} // verus!
