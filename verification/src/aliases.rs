//! The property value canonicalizer: alias tables for properties and for
//! their values, and the resolution of any alias to its canonical name.

use crate::error::Error;
use crate::line::{fields_of, is_skippable, skippable, split_fields};
use crate::text::{
    ascending, copy_range, insert_sorted, lower, same, same_folded, same_ignoring_case, views,
};
use vstd::prelude::*;
use vstd::string::StringSliceAdditionalSpecFns;

verus! {

/// One line of an alias table: within `scope`, `name` stands for
/// `canonical`. The scope of a property value is the canonical name of its
/// property; the scope of a property name is empty.
#[derive(Clone, Debug, PartialEq, Eq)]
pub struct Alias {
    pub scope: Vec<u8>,
    pub name: Vec<u8>,
    pub canonical: Vec<u8>,
}

/// An alias as a value.
pub struct AliasView {
    pub scope: Seq<u8>,
    pub name: Seq<u8>,
    pub canonical: Seq<u8>,
}

impl View for Alias {
    type V = AliasView;

    open spec fn view(&self) -> AliasView {
        AliasView { scope: self.scope@, name: self.name@, canonical: self.canonical@ }
    }
}

/// The aliases of `entries` as values.
pub open spec fn alias_views(entries: Seq<Alias>) -> Seq<AliasView> {
    Seq::new(entries.len(), |i: int| entries[i]@)
}

/// Whether names in `scope` are compared without regard to case. That is
/// so for the values of the general category and of the script property.
pub open spec fn folds(scope: Seq<u8>) -> bool {
    scope == "General_Category".spec_bytes() || scope == "Script".spec_bytes()
}

/// Whether `a` and `b` are the same name in `scope`.
pub open spec fn matches(scope: Seq<u8>, a: Seq<u8>, b: Seq<u8>) -> bool {
    if folds(scope) {
        same_folded(a, b)
    } else {
        a == b
    }
}

/// Whether `entry` defines `name` in `scope`.
pub open spec fn hits(entry: AliasView, scope: Seq<u8>, name: Seq<u8>) -> bool {
    entry.scope == scope && matches(scope, entry.name, name)
}

/// The canonical name that `name` stands for in `scope`: that of the first
/// entry that defines it.
pub open spec fn lookup(entries: Seq<AliasView>, scope: Seq<u8>, name: Seq<u8>) -> Option<Seq<u8>>
    decreases entries.len(),
{
    if entries.len() == 0 {
        None
    } else if hits(entries[0], scope, name) {
        Some(entries[0].canonical)
    } else {
        lookup(entries.skip(1), scope, name)
    }
}

/// A table in which every name defined resolves to the canonical name it
/// was defined with, and every canonical name resolves to itself: no name
/// has two meanings, and no alias leads to another alias.
pub open spec fn consistent(entries: Seq<AliasView>) -> bool {
    forall|i: int|
        0 <= i < entries.len() ==> {
            let e = #[trigger] entries[i];
            &&& lookup(entries, e.scope, e.name) == Some(e.canonical)
            &&& lookup(entries, e.scope, e.canonical) == Some(e.canonical)
        }
}

/// The table after `name` is defined as `canonical` in `scope`. A name
/// already defined so changes nothing; a name already defined otherwise
/// cannot be defined again.
pub open spec fn defined(
    entries: Seq<AliasView>,
    scope: Seq<u8>,
    name: Seq<u8>,
    canonical: Seq<u8>,
) -> Option<Seq<AliasView>> {
    match lookup(entries, scope, name) {
        Some(c) => if c == canonical {
            Some(entries)
        } else {
            None
        },
        None => Some(entries.push(AliasView { scope, name, canonical })),
    }
}

/// The table after `canonical` is defined as itself in `scope`, and then
/// each of `names`, in order, as `canonical`.
pub open spec fn with_names(
    entries: Seq<AliasView>,
    scope: Seq<u8>,
    canonical: Seq<u8>,
    names: Seq<Seq<u8>>,
) -> Option<Seq<AliasView>>
    decreases names.len(),
{
    if names.len() == 0 {
        defined(entries, scope, canonical, canonical)
    } else {
        match with_names(entries, scope, canonical, names.drop_last()) {
            None => None,
            Some(table) => defined(table, scope, names.last(), canonical),
        }
    }
}

/// The two alias tables: of property names, and of property values.
pub struct Tables {
    pub properties: Seq<AliasView>,
    pub values: Seq<AliasView>,
}

impl Tables {
    /// Both tables are consistent.
    pub open spec fn wf(self) -> bool {
        consistent(self.properties) && consistent(self.values)
    }

    /// The canonical name of the property that `property` names.
    pub open spec fn property(self, property: Seq<u8>) -> Option<Seq<u8>> {
        lookup(self.properties, Seq::empty(), property)
    }

    /// The canonical name of the value that `value` names under the
    /// property that `property` names.
    pub open spec fn resolve(self, property: Seq<u8>, value: Seq<u8>) -> Option<Seq<u8>> {
        match self.property(property) {
            None => None,
            Some(scope) => lookup(self.values, scope, value),
        }
    }

    /// The tables after a row of property names: a short name, the long
    /// name, which is canonical, and any further aliases.
    pub open spec fn with_property_row(self, fields: Seq<Seq<u8>>) -> Result<Tables, Error> {
        if fields.len() < 2 {
            Err(Error::MalformedLine)
        } else {
            match with_names(self.properties, Seq::empty(), fields[1], fields) {
                None => Err(Error::MalformedLine),
                Some(properties) => Ok(Tables { properties, values: self.values }),
            }
        }
    }

    /// The tables after a row of value names: the property, by any of its
    /// names, then a short name, the long name, which is canonical, and any
    /// further aliases.
    pub open spec fn with_value_row(self, fields: Seq<Seq<u8>>) -> Result<Tables, Error> {
        if fields.len() < 3 {
            Err(Error::MalformedLine)
        } else {
            match self.property(fields[0]) {
                None => Err(Error::UnknownPropertyValue),
                Some(scope) => match with_names(self.values, scope, fields[2], fields.skip(1)) {
                    None => Err(Error::MalformedLine),
                    Some(values) => Ok(Tables { properties: self.properties, values }),
                },
            }
        }
    }

    /// The tables after the rows that `lines` hold, value rows if `values`
    /// and property rows if not. Blank lines and comment lines are passed
    /// over; the first line that fails, fails the whole.
    pub open spec fn with_lines(self, lines: Seq<Seq<u8>>, values: bool) -> Result<Tables, Error>
        decreases lines.len(),
    {
        if lines.len() == 0 {
            Ok(self)
        } else {
            match self.with_lines(lines.drop_last(), values) {
                Err(e) => Err(e),
                Ok(tables) => if is_skippable(lines.last()) {
                    Ok(tables)
                } else if values {
                    tables.with_value_row(fields_of(lines.last()))
                } else {
                    tables.with_property_row(fields_of(lines.last()))
                },
            }
        }
    }
}

/// The tables that the two alias files give: the property names first, then
/// the value names, which are filed under the properties just read.
pub open spec fn loaded(property_lines: Seq<Seq<u8>>, value_lines: Seq<Seq<u8>>) -> Result<
    Tables,
    Error,
> {
    let empty = Tables { properties: Seq::empty(), values: Seq::empty() };
    match empty.with_lines(property_lines, false) {
        Err(e) => Err(e),
        Ok(tables) => tables.with_lines(value_lines, true),
    }
}

/// Where case is folded, names that differ only in case are looked up alike.
pub proof fn lemma_lookup_folded(entries: Seq<AliasView>, scope: Seq<u8>, a: Seq<u8>, b: Seq<u8>)
    requires
        folds(scope),
        lower(a) == lower(b),
    ensures
        lookup(entries, scope, a) == lookup(entries, scope, b),
    decreases entries.len(),
{
    if entries.len() > 0 {
        lemma_lookup_folded(entries.skip(1), scope, a, b);
    }
}

/// A name that is found, is found in an entry that defines it.
pub proof fn lemma_lookup_found(entries: Seq<AliasView>, scope: Seq<u8>, name: Seq<u8>) -> (i: int)
    requires
        lookup(entries, scope, name) is Some,
    ensures
        0 <= i < entries.len(),
        hits(entries[i], scope, name),
        lookup(entries, scope, name) == Some(entries[i].canonical),
    decreases entries.len(),
{
    if hits(entries[0], scope, name) {
        0
    } else {
        let j = lemma_lookup_found(entries.skip(1), scope, name);
        assert(entries.skip(1)[j] == entries[j + 1]);
        j + 1
    }
}

/// One more entry at the end changes no lookup that succeeded, and answers
/// those that failed if it defines the name.
pub proof fn lemma_lookup_push(
    entries: Seq<AliasView>,
    entry: AliasView,
    scope: Seq<u8>,
    name: Seq<u8>,
)
    ensures
        lookup(entries.push(entry), scope, name) == match lookup(entries, scope, name) {
            Some(c) => Some(c),
            None => if hits(entry, scope, name) {
                Some(entry.canonical)
            } else {
                None
            },
        },
    decreases entries.len(),
{
    let more = entries.push(entry);
    if entries.len() == 0 {
        assert(more[0] == entry);
        assert(more.skip(1) =~= Seq::<AliasView>::empty());
        assert(lookup(more.skip(1), scope, name) is None);
    } else {
        assert(more[0] == entries[0]);
        assert(more.skip(1) =~= entries.skip(1).push(entry));
        lemma_lookup_push(entries.skip(1), entry, scope, name);
    }
}

/// Defining a name keeps a consistent table consistent, provided its
/// canonical name is the name itself or resolves to itself already.
pub proof fn lemma_defined_consistent(
    entries: Seq<AliasView>,
    scope: Seq<u8>,
    name: Seq<u8>,
    canonical: Seq<u8>,
)
    requires
        consistent(entries),
        name == canonical || lookup(entries, scope, canonical) == Some(canonical),
        defined(entries, scope, name, canonical) is Some,
    ensures
        consistent(defined(entries, scope, name, canonical).unwrap()),
        lookup(defined(entries, scope, name, canonical).unwrap(), scope, canonical) == Some(
            canonical,
        ),
        lookup(defined(entries, scope, name, canonical).unwrap(), scope, name) == Some(canonical),
{
    let table = defined(entries, scope, name, canonical).unwrap();
    let entry = AliasView { scope, name, canonical };
    if lookup(entries, scope, name) is None {
        assert(table == entries.push(entry));
        lemma_lookup_push(entries, entry, scope, name);
        lemma_lookup_push(entries, entry, scope, canonical);
        assert forall|i: int| 0 <= i < table.len() implies {
            let e = #[trigger] table[i];
            &&& lookup(table, e.scope, e.name) == Some(e.canonical)
            &&& lookup(table, e.scope, e.canonical) == Some(e.canonical)
        } by {
            let e = table[i];
            lemma_lookup_push(entries, entry, e.scope, e.name);
            lemma_lookup_push(entries, entry, e.scope, e.canonical);
            if i < entries.len() {
                assert(table[i] == entries[i]);
            }
        }
    }
}

/// Defining a name changes no lookup that succeeded before.
pub proof fn lemma_defined_keeps(
    entries: Seq<AliasView>,
    scope: Seq<u8>,
    name: Seq<u8>,
    canonical: Seq<u8>,
    s: Seq<u8>,
    n: Seq<u8>,
)
    requires
        defined(entries, scope, name, canonical) is Some,
        lookup(entries, s, n) is Some,
    ensures
        lookup(defined(entries, scope, name, canonical).unwrap(), s, n) == lookup(entries, s, n),
{
    if lookup(entries, scope, name) is None {
        lemma_lookup_push(entries, AliasView { scope, name, canonical }, s, n);
    }
}

/// A row of names keeps a consistent table consistent; afterwards each of
/// the names, and the canonical name, resolves to the canonical name, and
/// whatever resolved before resolves as it did.
pub proof fn lemma_with_names(
    entries: Seq<AliasView>,
    scope: Seq<u8>,
    canonical: Seq<u8>,
    names: Seq<Seq<u8>>,
)
    requires
        consistent(entries),
        with_names(entries, scope, canonical, names) is Some,
    ensures
        consistent(with_names(entries, scope, canonical, names).unwrap()),
        lookup(with_names(entries, scope, canonical, names).unwrap(), scope, canonical) == Some(
            canonical,
        ),
        forall|k: int|
            0 <= k < names.len() ==> lookup(
                with_names(entries, scope, canonical, names).unwrap(),
                scope,
                #[trigger] names[k],
            ) == Some(canonical),
        forall|s: Seq<u8>, n: Seq<u8>|
            lookup(entries, s, n) is Some ==> #[trigger] lookup(
                with_names(entries, scope, canonical, names).unwrap(),
                s,
                n,
            ) == lookup(entries, s, n),
    decreases names.len(),
{
    let table = with_names(entries, scope, canonical, names).unwrap();
    if names.len() == 0 {
        lemma_defined_consistent(entries, scope, canonical, canonical);
        assert forall|s: Seq<u8>, n: Seq<u8>| lookup(entries, s, n) is Some implies #[trigger] lookup(
            table,
            s,
            n,
        ) == lookup(entries, s, n) by {
            lemma_defined_keeps(entries, scope, canonical, canonical, s, n);
        }
    } else {
        let head = names.drop_last();
        let before = with_names(entries, scope, canonical, head).unwrap();
        lemma_with_names(entries, scope, canonical, head);
        lemma_defined_consistent(before, scope, names.last(), canonical);
        assert forall|k: int| 0 <= k < names.len() implies lookup(
            table,
            scope,
            #[trigger] names[k],
        ) == Some(canonical) by {
            if k < head.len() {
                assert(head[k] == names[k]);
                lemma_defined_keeps(before, scope, names.last(), canonical, scope, names[k]);
            }
        }
        assert forall|s: Seq<u8>, n: Seq<u8>| lookup(entries, s, n) is Some implies #[trigger] lookup(
            table,
            s,
            n,
        ) == lookup(entries, s, n) by {
            assert(lookup(before, s, n) == lookup(entries, s, n));
            lemma_defined_keeps(before, scope, names.last(), canonical, s, n);
        }
    }
}

/// Whether names in `scope` are compared without regard to case.
pub fn folding(scope: &[u8]) -> (b: bool)
    ensures
        b == folds(scope@),
{
    same(scope, "General_Category".as_bytes()) || same(scope, "Script".as_bytes())
}

/// Looks `name` up in `scope`.
pub fn find_alias<'a>(entries: &'a Vec<Alias>, scope: &[u8], name: &[u8]) -> (r: Option<&'a Alias>)
    ensures
        match r {
            Some(entry) => hits(entry@, scope@, name@) && lookup(
                alias_views(entries@),
                scope@,
                name@,
            ) == Some(entry.canonical@),
            None => lookup(alias_views(entries@), scope@, name@) is None,
        },
{
    let ghost all = alias_views(entries@);
    let fold = folding(scope);
    let mut i: usize = 0;
    assert(all.skip(0) =~= all);
    while i < entries.len()
        invariant
            i <= entries.len(),
            all == alias_views(entries@),
            fold == folds(scope@),
            lookup(all, scope@, name@) == lookup(all.skip(i as int), scope@, name@),
        decreases entries.len() - i,
    {
        let entry = &entries[i];
        assert(all.skip(i as int)[0] == entries@[i as int]@);
        assert(all.skip(i as int).skip(1) =~= all.skip(i + 1));
        if same(entry.scope.as_slice(), scope) {
            let hit = if fold {
                same_ignoring_case(entry.name.as_slice(), name)
            } else {
                same(entry.name.as_slice(), name)
            };
            if hit {
                return Some(entry);
            }
        }
        i += 1;
    }
    None
}

/// Defines `name` as `canonical` in `scope`. Returns whether that could be
/// done; where it could not, the table is unchanged.
pub fn define(entries: &mut Vec<Alias>, scope: &[u8], name: &[u8], canonical: &[u8]) -> (ok: bool)
    ensures
        match defined(alias_views(old(entries)@), scope@, name@, canonical@) {
            Some(table) => ok && alias_views(final(entries)@) == table,
            None => !ok && final(entries)@ == old(entries)@,
        },
{
    let ghost before = alias_views(entries@);
    let found = match find_alias(entries, scope, name) {
        Some(entry) => Some(same(entry.canonical.as_slice(), canonical)),
        None => None,
    };
    match found {
        Some(agrees) => agrees,
        None => {
            let entry = Alias {
                scope: copy_range(scope, 0, scope.len()),
                name: copy_range(name, 0, name.len()),
                canonical: copy_range(canonical, 0, canonical.len()),
            };
            assert(scope@.subrange(0, scope.len() as int) =~= scope@);
            assert(name@.subrange(0, name.len() as int) =~= name@);
            assert(canonical@.subrange(0, canonical.len() as int) =~= canonical@);
            entries.push(entry);
            assert(alias_views(entries@) =~= before.push(
                AliasView { scope: scope@, name: name@, canonical: canonical@ },
            ));
            true
        },
    }
}

/// Defines `canonical` as itself in `scope`, and then each of
/// `names[from..]` as `canonical`. Returns whether all of that could be done.
fn define_all(
    entries: &mut Vec<Alias>,
    scope: &[u8],
    canonical: &[u8],
    names: &Vec<Vec<u8>>,
    from: usize,
) -> (ok: bool)
    requires
        from <= names.len(),
    ensures
        match with_names(
            alias_views(old(entries)@),
            scope@,
            canonical@,
            views(names@).skip(from as int),
        ) {
            Some(table) => ok && alias_views(final(entries)@) == table,
            None => !ok,
        },
{
    let ghost start = alias_views(entries@);
    let ghost rest = views(names@).skip(from as int);
    if !define(entries, scope, canonical, canonical) {
        proof {
            lemma_with_names_fails(start, scope@, canonical@, rest, 0);
        }
        return false;
    }
    let mut i: usize = from;
    assert(rest.take(0) =~= Seq::<Seq<u8>>::empty());
    while i < names.len()
        invariant
            from <= i <= names.len(),
            start == alias_views(old(entries)@),
            rest == views(names@).skip(from as int),
            with_names(start, scope@, canonical@, rest.take(i - from)) == Some(
                alias_views(entries@),
            ),
        decreases names.len() - i,
    {
        assert(rest.take(i - from + 1).drop_last() =~= rest.take(i - from));
        assert(rest.take(i - from + 1).last() == names@[i as int]@);
        if !define(entries, scope, names[i].as_slice(), canonical) {
            proof {
                lemma_with_names_fails(start, scope@, canonical@, rest, i - from + 1);
            }
            return false;
        }
        i += 1;
    }
    assert(rest.take(i - from) =~= rest);
    true
}

/// Once a leading part of the names cannot be defined, neither can the whole.
pub proof fn lemma_with_names_fails(
    entries: Seq<AliasView>,
    scope: Seq<u8>,
    canonical: Seq<u8>,
    names: Seq<Seq<u8>>,
    n: int,
)
    requires
        0 <= n <= names.len(),
        with_names(entries, scope, canonical, names.take(n)) is None,
    ensures
        with_names(entries, scope, canonical, names) is None,
    decreases names.len() - n,
{
    if n < names.len() {
        assert(names.take(n + 1).drop_last() =~= names.take(n));
        lemma_with_names_fails(entries, scope, canonical, names, n + 1);
    } else {
        assert(names.take(n) =~= names);
    }
}

/// The alias tables of one run. They are built once, from the two alias
/// files, and only read afterwards.
#[derive(Debug)]
pub struct PropertyValues {
    properties: Vec<Alias>,
    values: Vec<Alias>,
}

impl View for PropertyValues {
    type V = Tables;

    closed spec fn view(&self) -> Tables {
        Tables { properties: alias_views(self.properties@), values: alias_views(self.values@) }
    }
}

impl PropertyValues {
    /// Both tables are consistent.
    pub open spec fn wf(&self) -> bool {
        self@.wf()
    }

    /// Tables that know no name.
    pub fn new() -> (r: PropertyValues)
        ensures
            r.wf(),
            r@ == (Tables { properties: Seq::empty(), values: Seq::empty() }),
    {
        let r = PropertyValues { properties: Vec::new(), values: Vec::new() };
        assert(alias_views(r.properties@) =~= Seq::<AliasView>::empty());
        assert(alias_views(r.values@) =~= Seq::<AliasView>::empty());
        r
    }

    /// Adds a row of property names: a short name, the long name, and any
    /// further aliases. A row with fewer than two names, or one that gives a
    /// name a second meaning, is malformed.
    pub fn with_property(self, fields: &Vec<Vec<u8>>) -> (r: Result<PropertyValues, Error>)
        requires
            self.wf(),
        ensures
            match r {
                Ok(tables) => self@.with_property_row(views(fields@)) == Ok::<Tables, Error>(
                    tables@,
                ) && tables.wf(),
                Err(e) => self@.with_property_row(views(fields@)) == Err::<Tables, Error>(e),
            },
    {
        if fields.len() < 2 {
            return Err(Error::MalformedLine);
        }
        let mut properties = self.properties;
        let ghost before = alias_views(properties@);
        assert(views(fields@)[1] == fields@[1]@);
        assert(views(fields@).skip(0) =~= views(fields@));
        let empty: Vec<u8> = Vec::new();
        assert(empty@ =~= Seq::<u8>::empty());
        if define_all(&mut properties, empty.as_slice(), fields[1].as_slice(), fields, 0) {
            proof {
                lemma_with_names(before, Seq::empty(), fields@[1]@, views(fields@));
            }
            Ok(PropertyValues { properties, values: self.values })
        } else {
            Err(Error::MalformedLine)
        }
    }

    /// Adds a row of value names: the property, a short name, the long
    /// name, and any further aliases. A row with fewer than two names after
    /// the property, or one that gives a name a second meaning, is
    /// malformed; a property that the tables do not know is unknown.
    pub fn with_value(self, fields: &Vec<Vec<u8>>) -> (r: Result<PropertyValues, Error>)
        requires
            self.wf(),
        ensures
            match r {
                Ok(tables) => self@.with_value_row(views(fields@)) == Ok::<Tables, Error>(
                    tables@,
                ) && tables.wf(),
                Err(e) => self@.with_value_row(views(fields@)) == Err::<Tables, Error>(e),
            },
    {
        if fields.len() < 3 {
            return Err(Error::MalformedLine);
        }
        assert(views(fields@)[0] == fields@[0]@);
        assert(views(fields@)[2] == fields@[2]@);
        let empty: Vec<u8> = Vec::new();
        assert(empty@ =~= Seq::<u8>::empty());
        let scope = match find_alias(&self.properties, empty.as_slice(), fields[0].as_slice()) {
            None => {
                return Err(Error::UnknownPropertyValue);
            },
            Some(entry) => copy_range(entry.canonical.as_slice(), 0, entry.canonical.len()),
        };
        assert(scope@ == self@.property(fields@[0]@).unwrap()) by {
            let c = self@.property(fields@[0]@).unwrap();
            assert(c.subrange(0, c.len() as int) =~= c);
        }
        let mut values = self.values;
        let ghost before = alias_views(values@);
        if define_all(&mut values, scope.as_slice(), fields[2].as_slice(), fields, 1) {
            proof {
                lemma_with_names(before, scope@, fields@[2]@, views(fields@).skip(1));
            }
            Ok(PropertyValues { properties: self.properties, values })
        } else {
            Err(Error::MalformedLine)
        }
    }

    /// Adds the rows that `lines` hold: value rows if `values`, property
    /// rows if not.
    pub fn with_lines(self, lines: &Vec<Vec<u8>>, values: bool) -> (r: Result<
        PropertyValues,
        Error,
    >)
        requires
            self.wf(),
        ensures
            match r {
                Ok(tables) => self@.with_lines(views(lines@), values) == Ok::<Tables, Error>(
                    tables@,
                ) && tables.wf(),
                Err(e) => self@.with_lines(views(lines@), values) == Err::<Tables, Error>(e),
            },
    {
        let ghost start = self@;
        let ghost all = views(lines@);
        let mut tables = self;
        let mut i: usize = 0;
        assert(all.take(0) =~= Seq::<Seq<u8>>::empty());
        while i < lines.len()
            invariant
                i <= lines.len(),
                all == views(lines@),
                start == self@,
                tables.wf(),
                start.with_lines(all.take(i as int), values) == Ok::<Tables, Error>(tables@),
            decreases lines.len() - i,
        {
            assert(all.take(i + 1).drop_last() =~= all.take(i as int));
            assert(all.take(i + 1).last() == lines@[i as int]@);
            if !skippable(lines[i].as_slice()) {
                let fields = split_fields(lines[i].as_slice());
                let next = if values {
                    tables.with_value(&fields)
                } else {
                    tables.with_property(&fields)
                };
                match next {
                    Err(e) => {
                        proof {
                            lemma_with_lines_fails(start, all, values, i + 1);
                        }
                        return Err(e);
                    },
                    Ok(t) => {
                        tables = t;
                    },
                }
            }
            i += 1;
        }
        assert(all.take(i as int) =~= all);
        Ok(tables)
    }

    /// Builds the tables from the lines of the property alias file and of
    /// the property value alias file.
    pub fn from_lines(property_lines: &Vec<Vec<u8>>, value_lines: &Vec<Vec<u8>>) -> (r: Result<
        PropertyValues,
        Error,
    >)
        ensures
            match r {
                Ok(tables) => loaded(views(property_lines@), views(value_lines@)) == Ok::<
                    Tables,
                    Error,
                >(tables@) && tables.wf(),
                Err(e) => loaded(views(property_lines@), views(value_lines@)) == Err::<
                    Tables,
                    Error,
                >(e),
            },
    {
        match PropertyValues::new().with_lines(property_lines, false) {
            Err(e) => Err(e),
            Ok(tables) => tables.with_lines(value_lines, true),
        }
    }

    /// The canonical name of the property that `property` names.
    pub fn property_name(&self, property: &[u8]) -> (r: Result<Vec<u8>, Error>)
        ensures
            match r {
                Ok(name) => self@.property(property@) == Some(name@),
                Err(e) => e == Error::UnknownPropertyValue && self@.property(property@) is None,
            },
    {
        let empty: Vec<u8> = Vec::new();
        assert(empty@ =~= Seq::<u8>::empty());
        match find_alias(&self.properties, empty.as_slice(), property) {
            None => Err(Error::UnknownPropertyValue),
            Some(entry) => {
                let name = copy_range(entry.canonical.as_slice(), 0, entry.canonical.len());
                assert(entry.canonical@.subrange(0, entry.canonical@.len() as int)
                    =~= entry.canonical@);
                Ok(name)
            },
        }
    }

    /// The canonical name of the value that `value` names under the
    /// property that `property` names. A property or a value that the
    /// tables do not know is unknown: no name is taken as it stands.
    pub fn canonical(&self, property: &[u8], value: &[u8]) -> (r: Result<Vec<u8>, Error>)
        ensures
            match r {
                Ok(name) => self@.resolve(property@, value@) == Some(name@),
                Err(e) => e == Error::UnknownPropertyValue && self@.resolve(property@, value@)
                    is None,
            },
    {
        let scope = match self.property_name(property) {
            Err(e) => {
                return Err(e);
            },
            Ok(scope) => scope,
        };
        match find_alias(&self.values, scope.as_slice(), value) {
            None => Err(Error::UnknownPropertyValue),
            Some(entry) => {
                let name = copy_range(entry.canonical.as_slice(), 0, entry.canonical.len());
                assert(entry.canonical@.subrange(0, entry.canonical@.len() as int)
                    =~= entry.canonical@);
                Ok(name)
            },
        }
    }
}

/// Once a leading part of the lines fails, so does the whole.
pub proof fn lemma_with_lines_fails(tables: Tables, lines: Seq<Seq<u8>>, values: bool, n: int)
    requires
        0 <= n <= lines.len(),
        tables.with_lines(lines.take(n), values) is Err,
    ensures
        tables.with_lines(lines, values) == tables.with_lines(lines.take(n), values),
    decreases lines.len() - n,
{
    if n < lines.len() {
        assert(lines.take(n + 1).drop_last() =~= lines.take(n));
        lemma_with_lines_fails(tables, lines, values, n + 1);
    } else {
        assert(lines.take(n) =~= lines);
    }
}

/// What a row of value names brings about: every name of the row resolves
/// to the row's canonical name, and whatever resolved before resolves as it
/// did.
pub proof fn lemma_value_row(tables: Tables, fields: Seq<Seq<u8>>)
    requires
        tables.wf(),
        tables.with_value_row(fields) is Ok,
    ensures
        tables.with_value_row(fields).unwrap().wf(),
        forall|k: int|
            1 <= k < fields.len() ==> tables.with_value_row(fields).unwrap().resolve(
                fields[0],
                #[trigger] fields[k],
            ) == Some(fields[2]),
        forall|p: Seq<u8>|
            #[trigger] tables.with_value_row(fields).unwrap().property(p) == tables.property(p),
        forall|p: Seq<u8>, v: Seq<u8>|
            tables.resolve(p, v) is Some ==> #[trigger] tables.with_value_row(
                fields,
            ).unwrap().resolve(p, v) == tables.resolve(p, v),
{
    let scope = tables.property(fields[0]).unwrap();
    let names = fields.skip(1);
    lemma_with_names(tables.values, scope, fields[2], names);
    let after = tables.with_value_row(fields).unwrap();
    assert forall|k: int| 1 <= k < fields.len() implies after.resolve(
        fields[0],
        #[trigger] fields[k],
    ) == Some(fields[2]) by {
        assert(names[k - 1] == fields[k]);
    }
}

/// What a row of property names brings about: every name of the row names
/// the property of the row's long name, and whatever resolved before
/// resolves as it did.
pub proof fn lemma_property_row(tables: Tables, fields: Seq<Seq<u8>>)
    requires
        tables.wf(),
        tables.with_property_row(fields) is Ok,
    ensures
        tables.with_property_row(fields).unwrap().wf(),
        forall|k: int|
            0 <= k < fields.len() ==> tables.with_property_row(fields).unwrap().property(
                #[trigger] fields[k],
            ) == Some(fields[1]),
        forall|p: Seq<u8>|
            tables.property(p) is Some ==> #[trigger] tables.with_property_row(
                fields,
            ).unwrap().property(p) == tables.property(p),
        forall|p: Seq<u8>, v: Seq<u8>|
            tables.resolve(p, v) is Some ==> #[trigger] tables.with_property_row(
                fields,
            ).unwrap().resolve(p, v) == tables.resolve(p, v),
{
    lemma_with_names(tables.properties, Seq::empty(), fields[1], fields);
    let after = tables.with_property_row(fields).unwrap();
    assert forall|p: Seq<u8>, v: Seq<u8>| tables.resolve(p, v) is Some implies #[trigger] after.resolve(
        p,
        v,
    ) == tables.resolve(p, v) by {
        assert(after.property(p) == tables.property(p));
    }
}

/// Reading more lines keeps the tables consistent and changes nothing that
/// resolved before.
pub proof fn lemma_lines_keep(tables: Tables, lines: Seq<Seq<u8>>, values: bool)
    requires
        tables.wf(),
        tables.with_lines(lines, values) is Ok,
    ensures
        tables.with_lines(lines, values).unwrap().wf(),
        forall|p: Seq<u8>|
            tables.property(p) is Some ==> #[trigger] tables.with_lines(
                lines,
                values,
            ).unwrap().property(p) == tables.property(p),
        forall|p: Seq<u8>, v: Seq<u8>|
            tables.resolve(p, v) is Some ==> #[trigger] tables.with_lines(
                lines,
                values,
            ).unwrap().resolve(p, v) == tables.resolve(p, v),
    decreases lines.len(),
{
    if lines.len() > 0 {
        let head = lines.drop_last();
        let mid = tables.with_lines(head, values).unwrap();
        let after = tables.with_lines(lines, values).unwrap();
        lemma_lines_keep(tables, head, values);
        if !is_skippable(lines.last()) {
            if values {
                lemma_value_row(mid, fields_of(lines.last()));
            } else {
                lemma_property_row(mid, fields_of(lines.last()));
            }
        }
        assert forall|p: Seq<u8>| tables.property(p) is Some implies #[trigger] after.property(p)
            == tables.property(p) by {
            assert(mid.property(p) == tables.property(p));
        }
        assert forall|p: Seq<u8>, v: Seq<u8>| tables.resolve(p, v) is Some implies #[trigger] after.resolve(
            p,
            v,
        ) == tables.resolve(p, v) by {
            assert(mid.resolve(p, v) == tables.resolve(p, v));
        }
    }
}

/// Every line of value names that was read has its say in the tables that
/// come out: each name on it resolves to the long name on it.
pub proof fn lemma_line_resolves(tables: Tables, lines: Seq<Seq<u8>>, i: int, k: int)
    requires
        tables.wf(),
        tables.with_lines(lines, true) is Ok,
        0 <= i < lines.len(),
        !is_skippable(lines[i]),
        1 <= k < fields_of(lines[i]).len(),
    ensures
        tables.with_lines(lines, true).unwrap().resolve(
            fields_of(lines[i])[0],
            fields_of(lines[i])[k],
        ) == Some(fields_of(lines[i])[2]),
    decreases lines.len(),
{
    let head = lines.drop_last();
    let mid = tables.with_lines(head, true).unwrap();
    let row = fields_of(lines[i]);
    lemma_lines_keep(tables, head, true);
    if i == lines.len() - 1 {
        lemma_value_row(mid, row);
    } else {
        assert(head[i] == lines[i]);
        lemma_line_resolves(tables, head, i, k);
        if !is_skippable(lines.last()) {
            lemma_value_row(mid, fields_of(lines.last()));
        }
    }
}

/// Canonicalization is idempotent: the canonical name of a value resolves
/// to itself.
pub proof fn lemma_canonical_idempotent(tables: Tables, property: Seq<u8>, value: Seq<u8>)
    requires
        tables.wf(),
        tables.resolve(property, value) is Some,
    ensures
        tables.resolve(property, tables.resolve(property, value).unwrap()) == tables.resolve(
            property,
            value,
        ),
{
    let scope = tables.property(property).unwrap();
    let i = lemma_lookup_found(tables.values, scope, value);
    assert(tables.values[i].scope == scope);
}

/// Under a property whose values are compared without regard to case, two
/// names that differ only in case resolve alike.
pub proof fn lemma_resolve_ignores_case(
    tables: Tables,
    property: Seq<u8>,
    a: Seq<u8>,
    b: Seq<u8>,
)
    requires
        tables.property(property) is Some,
        folds(tables.property(property).unwrap()),
        lower(a) == lower(b),
    ensures
        tables.resolve(property, a) == tables.resolve(property, b),
{
    lemma_lookup_folded(tables.values, tables.property(property).unwrap(), a, b);
}

/// The names that were defined as `canonical` in `scope`, as they were
/// written.
pub open spec fn names_for(entries: Seq<AliasView>, scope: Seq<u8>, canonical: Seq<u8>) -> Set<
    Seq<u8>,
> {
    Set::new(
        |n: Seq<u8>|
            exists|i: int|
                0 <= i < entries.len() && #[trigger] entries[i] == (AliasView {
                    scope,
                    name: n,
                    canonical,
                }),
    )
}

/// The canonical names of `scope`.
pub open spec fn canonicals_in(entries: Seq<AliasView>, scope: Seq<u8>) -> Set<Seq<u8>> {
    Set::new(
        |c: Seq<u8>|
            exists|i: int|
                0 <= i < entries.len() && (#[trigger] entries[i]).scope == scope
                    && entries[i].canonical == c,
    )
}

/// One canonical value with the names that stand for it.
#[derive(Clone, Debug, PartialEq, Eq)]
pub struct Listing {
    pub canonical: Vec<u8>,
    pub aliases: Vec<Vec<u8>>,
}

/// The canonical names of a list of listings, in order.
pub open spec fn listed(list: Seq<Listing>) -> Seq<Seq<u8>> {
    Seq::new(list.len(), |i: int| list[i].canonical@)
}

/// The names defined as `canonical` in `scope`, in ascending order.
fn collect_names(entries: &Vec<Alias>, scope: &[u8], canonical: &[u8]) -> (r: Vec<Vec<u8>>)
    ensures
        ascending(views(r@)),
        views(r@).to_set() == names_for(alias_views(entries@), scope@, canonical@),
{
    let ghost all = alias_views(entries@);
    let mut out: Vec<Vec<u8>> = Vec::new();
    let mut k: usize = 0;
    while k < entries.len()
        invariant
            k <= entries.len(),
            all == alias_views(entries@),
            ascending(views(out@)),
            forall|x: Seq<u8>|
                views(out@).contains(x) <==> exists|i: int|
                    0 <= i < k && #[trigger] all[i] == (AliasView {
                        scope: scope@,
                        name: x,
                        canonical: canonical@,
                    }),
        decreases entries.len() - k,
    {
        let entry = &entries[k];
        let ghost before = views(out@);
        assert(all[k as int] == entries@[k as int]@);
        if same(entry.scope.as_slice(), scope) && same(entry.canonical.as_slice(), canonical) {
            insert_sorted(&mut out, entry.name.as_slice());
        }
        proof {
            assert forall|x: Seq<u8>|
                views(out@).contains(x) <==> exists|i: int|
                    0 <= i < k + 1 && #[trigger] all[i] == (AliasView {
                        scope: scope@,
                        name: x,
                        canonical: canonical@,
                    }) by {
                let wanted = AliasView { scope: scope@, name: x, canonical: canonical@ };
                if views(out@).contains(x) {
                    if before.contains(x) {
                        let i = choose|i: int| 0 <= i < k && #[trigger] all[i] == wanted;
                        assert(all[i] == wanted);
                    } else {
                        assert(all[k as int] == wanted);
                    }
                }
                if exists|i: int| 0 <= i < k + 1 && #[trigger] all[i] == wanted {
                    let i = choose|i: int| 0 <= i < k + 1 && #[trigger] all[i] == wanted;
                    if i < k {
                        assert(before.contains(x));
                    }
                }
            }
        }
        k += 1;
    }
    assert(views(out@).to_set() =~= names_for(all, scope@, canonical@));
    out
}

/// The canonical names of `scope`, in ascending order.
fn collect_canonicals(entries: &Vec<Alias>, scope: &[u8]) -> (r: Vec<Vec<u8>>)
    ensures
        ascending(views(r@)),
        views(r@).to_set() == canonicals_in(alias_views(entries@), scope@),
{
    let ghost all = alias_views(entries@);
    let mut out: Vec<Vec<u8>> = Vec::new();
    let mut k: usize = 0;
    while k < entries.len()
        invariant
            k <= entries.len(),
            all == alias_views(entries@),
            ascending(views(out@)),
            forall|x: Seq<u8>|
                views(out@).contains(x) <==> exists|i: int|
                    0 <= i < k && (#[trigger] all[i]).scope == scope@ && all[i].canonical == x,
        decreases entries.len() - k,
    {
        let entry = &entries[k];
        let ghost before = views(out@);
        assert(all[k as int] == entries@[k as int]@);
        if same(entry.scope.as_slice(), scope) {
            insert_sorted(&mut out, entry.canonical.as_slice());
        }
        proof {
            assert forall|x: Seq<u8>|
                views(out@).contains(x) <==> exists|i: int|
                    0 <= i < k + 1 && (#[trigger] all[i]).scope == scope@ && all[i].canonical
                        == x by {
                if views(out@).contains(x) {
                    if before.contains(x) {
                        let i = choose|i: int|
                            0 <= i < k && (#[trigger] all[i]).scope == scope@ && all[i].canonical
                                == x;
                        assert(all[i].scope == scope@);
                    } else {
                        assert(all[k as int].scope == scope@);
                    }
                }
                if exists|i: int|
                    0 <= i < k + 1 && (#[trigger] all[i]).scope == scope@ && all[i].canonical
                        == x {
                    let i = choose|i: int|
                        0 <= i < k + 1 && (#[trigger] all[i]).scope == scope@ && all[i].canonical
                            == x;
                    if i < k {
                        assert(before.contains(x));
                    }
                }
            }
        }
        k += 1;
    }
    assert(views(out@).to_set() =~= canonicals_in(all, scope@));
    out
}

impl PropertyValues {
    /// The names that stand for the value `canonical` of the property that
    /// `property` names: a set, in ascending order.
    pub fn aliases_of(&self, property: &[u8], canonical: &[u8]) -> (r: Result<Vec<Vec<u8>>, Error>)
        ensures
            match r {
                Ok(names) => self@.property(property@) is Some && ascending(views(names@))
                    && views(names@).to_set() == names_for(
                    self@.values,
                    self@.property(property@).unwrap(),
                    canonical@,
                ),
                Err(e) => e == Error::UnknownPropertyValue && self@.property(property@) is None,
            },
    {
        match self.property_name(property) {
            Err(e) => Err(e),
            Ok(scope) => Ok(collect_names(&self.values, scope.as_slice(), canonical)),
        }
    }

    /// The values of the property that `property` names, by canonical name
    /// in ascending order, each with the names that stand for it.
    pub fn list_values(&self, property: &[u8]) -> (r: Result<Vec<Listing>, Error>)
        ensures
            match r {
                Ok(list) => {
                    &&& self@.property(property@) is Some
                    &&& ascending(listed(list@))
                    &&& listed(list@).to_set() == canonicals_in(
                        self@.values,
                        self@.property(property@).unwrap(),
                    )
                    &&& forall|k: int|
                        0 <= k < list@.len() ==> ascending(views((#[trigger] list@[k]).aliases@))
                            && views(list@[k].aliases@).to_set() == names_for(
                            self@.values,
                            self@.property(property@).unwrap(),
                            list@[k].canonical@,
                        )
                },
                Err(e) => e == Error::UnknownPropertyValue && self@.property(property@) is None,
            },
    {
        let scope = match self.property_name(property) {
            Err(e) => {
                return Err(e);
            },
            Ok(scope) => scope,
        };
        let names = collect_canonicals(&self.values, scope.as_slice());
        let mut list: Vec<Listing> = Vec::new();
        let mut k: usize = 0;
        while k < names.len()
            invariant
                k <= names.len(),
                list@.len() == k,
                forall|i: int| 0 <= i < k ==> (#[trigger] list@[i]).canonical@ == names@[i]@,
                forall|i: int|
                    0 <= i < k ==> ascending(views((#[trigger] list@[i]).aliases@)) && views(
                        list@[i].aliases@,
                    ).to_set() == names_for(alias_views(self.values@), scope@, list@[i].canonical@),
            decreases names.len() - k,
        {
            let canonical = copy_range(names[k].as_slice(), 0, names[k].len());
            assert(names@[k as int]@.subrange(0, names@[k as int]@.len() as int)
                =~= names@[k as int]@);
            let aliases = collect_names(&self.values, scope.as_slice(), canonical.as_slice());
            list.push(Listing { canonical, aliases });
            k += 1;
        }
        assert(listed(list@) =~= views(names@));
        Ok(list)
    }
}

} // verus!
