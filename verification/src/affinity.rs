//! The `affinity_groups` attribute: reading `field = group` items into the
//! affinity groups of a struct, with the errors the attribute can carry.
use vstd::prelude::*;

use crate::split_struct::{
    child_name, group_model, groups_model, spec_field_map, AffinityGroup, ChildStruct, SplitStruct,
};

verus! {

/// The literal on the right of a `field = value` item.
#[derive(Clone, Copy, Debug, PartialEq, Eq, Structural)]
pub enum LitKind {
    /// An integer literal without a suffix, such as `2`.
    UnsuffixedInt(u128),
    /// Any other literal.
    Other,
}

/// One item of the attribute's list.
pub enum AttrItem {
    /// `field = value`.
    NameValue { field: String, value: LitKind },
    /// Any other form of item; it is passed over.
    Other,
}

/// An error reported at an item of the attribute's list.
#[derive(Clone, Copy, Debug, PartialEq, Eq, Structural)]
pub enum AffinityError {
    /// The item at this position names a field that the struct lacks.
    UnknownField(usize),
    /// The item at this position gives a group that is not an unsuffixed
    /// integer.
    NotUnsuffixedInt(usize),
}

impl AffinityError {
    /// The text reported for the error.
    pub fn message(&self) -> (r: &'static str)
        ensures
            self is UnknownField ==> r@ == "Setting affinity group of struct field that does not exist"@,
            self is NotUnsuffixedInt ==> r@ == "Affinity group must be an unsuffixed integer"@,
    {
        match self {
            AffinityError::UnknownField(_) => "Setting affinity group of struct field that does not exist",
            AffinityError::NotUnsuffixedInt(_) => "Affinity group must be an unsuffixed integer",
        }
    }
}

/// The names of the fields, by their characters.
pub open spec fn names_model(names: Seq<String>) -> Seq<Seq<char>> {
    names.map_values(|s: String| s@)
}

/// The position of the last field called `n`, or `-1`.
pub open spec fn last_position(names: Seq<Seq<char>>, n: Seq<char>) -> int
    decreases names.len(),
{
    if names.len() == 0 {
        -1
    } else if names.last() == n {
        names.len() - 1
    } else {
        last_position(names.drop_last(), n)
    }
}

/// The position of the group for affinity `a`, or `-1`.
pub open spec fn group_position(groups: Seq<(usize, Seq<usize>)>, a: usize) -> int
    decreases groups.len(),
{
    if groups.len() == 0 {
        -1
    } else if groups.last().0 == a {
        groups.len() - 1
    } else {
        group_position(groups.drop_last(), a)
    }
}

/// Adds field `f` to the group for affinity `a`, opening the group at the
/// end when there is none yet.
pub open spec fn add_to_group(groups: Seq<(usize, Seq<usize>)>, a: usize, f: usize) -> Seq<
    (usize, Seq<usize>),
> {
    let p = group_position(groups, a);
    if p < 0 {
        groups.push((a, seq![f]))
    } else {
        groups.update(p, (a, groups[p].1.push(f)))
    }
}

/// The affinity groups that the items give, in the order in which each
/// group is first named.
pub open spec fn spec_groups(names: Seq<Seq<char>>, items: Seq<AttrItem>) -> Seq<(usize, Seq<usize>)>
    decreases items.len(),
{
    if items.len() == 0 {
        seq![]
    } else {
        let g = spec_groups(names, items.drop_last());
        match items.last() {
            AttrItem::NameValue { field, value: LitKind::UnsuffixedInt(v) } => add_to_group(
                g,
                v as usize,
                last_position(names, field@) as usize,
            ),
            _ => g,
        }
    }
}

/// The errors that the item at position `i` carries, in the order they
/// are reported.
pub open spec fn item_errors(names: Seq<Seq<char>>, item: AttrItem, i: usize) -> Seq<AffinityError> {
    match item {
        AttrItem::NameValue { field, value } => {
            let unknown = if names.contains(field@) {
                seq![]
            } else {
                seq![AffinityError::UnknownField(i)]
            };
            let not_int = if value is UnsuffixedInt {
                seq![]
            } else {
                seq![AffinityError::NotUnsuffixedInt(i)]
            };
            unknown + not_int
        },
        AttrItem::Other => seq![],
    }
}

/// All errors that the items carry, in item order.
pub open spec fn spec_errors(names: Seq<Seq<char>>, items: Seq<AttrItem>) -> Seq<AffinityError>
    decreases items.len(),
{
    if items.len() == 0 {
        seq![]
    } else {
        spec_errors(names, items.drop_last()) + item_errors(
            names,
            items.last(),
            (items.len() - 1) as usize,
        )
    }
}

/// An item that sets the group of a field the struct lacks to an
/// unsuffixed integer; the attribute cannot be read past it.
pub open spec fn sets_unknown_field(names: Seq<Seq<char>>, item: AttrItem) -> bool {
    match item {
        AttrItem::NameValue { field, value } => value is UnsuffixedInt && !names.contains(field@),
        AttrItem::Other => false,
    }
}

proof fn lemma_last_position(names: Seq<Seq<char>>, n: Seq<char>)
    ensures
        names.contains(n) ==> 0 <= last_position(names, n) < names.len() && names[last_position(
            names,
            n,
        )] == n,
        !names.contains(n) ==> last_position(names, n) == -1,
    decreases names.len(),
{
    if names.len() > 0 {
        lemma_last_position(names.drop_last(), n);
        if names.last() != n {
            if names.contains(n) {
                let i = choose|i: int| 0 <= i < names.len() && names[i] == n;
                assert(names.drop_last()[i] == n);
            }
            if names.drop_last().contains(n) {
                let i = choose|i: int| 0 <= i < names.drop_last().len() && names.drop_last()[i] == n;
                assert(names[i] == n);
            }
        } else {
            assert(names[names.len() - 1] == n);
        }
    }
}

fn field_position(field_names: &Vec<String>, name: &String) -> (r: Option<usize>)
    ensures
        match r {
            Some(i) => names_model(field_names@).contains(name@) && i as int == last_position(
                names_model(field_names@),
                name@,
            ),
            None => !names_model(field_names@).contains(name@),
        },
{
    let ghost names = names_model(field_names@);
    let mut found: Option<usize> = None;
    for i in 0..field_names.len()
        invariant
            names == names_model(field_names@),
            match found {
                Some(k) => k as int == last_position(names.take(i as int), name@) && k < i,
                None => last_position(names.take(i as int), name@) == -1,
            },
    {
        proof {
            assert(names.take(i + 1).drop_last() =~= names.take(i as int));
        }
        if field_names[i] == *name {
            found = Some(i);
        }
    }
    proof {
        assert(names.take(field_names@.len() as int) =~= names);
        lemma_last_position(names, name@);
    }
    found
}

fn position_of_group(groups: &Vec<AffinityGroup>, a: usize) -> (r: Option<usize>)
    ensures
        match r {
            Some(p) => p < groups@.len() && p as int == group_position(groups_model(groups@), a),
            None => group_position(groups_model(groups@), a) == -1,
        },
{
    let ghost gm = groups_model(groups@);
    let mut found: Option<usize> = None;
    for i in 0..groups.len()
        invariant
            gm == groups_model(groups@),
            match found {
                Some(k) => k as int == group_position(gm.take(i as int), a) && k < i,
                None => group_position(gm.take(i as int), a) == -1,
            },
    {
        proof {
            assert(gm.take(i + 1).drop_last() =~= gm.take(i as int));
            assert(gm.take(i + 1).last() == group_model(groups@[i as int]));
        }
        if groups[i].affinity == a {
            found = Some(i);
        }
    }
    proof {
        assert(gm.take(groups@.len() as int) =~= gm);
    }
    found
}

proof fn lemma_group_position_bounds(groups: Seq<(usize, Seq<usize>)>, a: usize)
    ensures
        -1 <= group_position(groups, a) < groups.len(),
        group_position(groups, a) >= 0 ==> groups[group_position(groups, a)].0 == a,
    decreases groups.len(),
{
    if groups.len() > 0 {
        lemma_group_position_bounds(groups.drop_last(), a);
    }
}

/// The groups that the items give have distinct affinities: a field
/// joins the group of its affinity where there is one.
pub proof fn lemma_groups_distinct(names: Seq<Seq<char>>, items: Seq<AttrItem>)
    ensures
        crate::split_struct::affinities_distinct(spec_groups(names, items)),
    decreases items.len(),
{
    if items.len() > 0 {
        lemma_groups_distinct(names, items.drop_last());
        let g = spec_groups(names, items.drop_last());
        if let AttrItem::NameValue { field, value: LitKind::UnsuffixedInt(v) } = items.last() {
            let a = v as usize;
            lemma_group_position_bounds(g, a);
            let g2 = spec_groups(names, items);
            let p = group_position(g, a);
            if p < 0 {
                lemma_group_position_none(g, a);
            }
            assert forall|i: int, j: int| 0 <= i < j < g2.len() implies #[trigger] g2[i].0 != #[trigger] g2[j].0 by {
                if p < 0 {
                    if j == g.len() {
                        assert(g[i].0 != a);
                    } else {
                        assert(g[i] == g2[i] && g[j] == g2[j]);
                    }
                } else {
                    assert(g2[i].0 == g[i].0 && g2[j].0 == g[j].0);
                }
            }
        }
    }
}

proof fn lemma_group_position_none(groups: Seq<(usize, Seq<usize>)>, a: usize)
    requires
        group_position(groups, a) < 0,
    ensures
        forall|i: int| 0 <= i < groups.len() ==> (#[trigger] groups[i]).0 != a,
    decreases groups.len(),
{
    if groups.len() > 0 {
        lemma_group_position_none(groups.drop_last(), a);
        assert forall|i: int| 0 <= i < groups.len() implies (#[trigger] groups[i]).0 != a by {
            if i < groups.len() - 1 {
                assert(groups[i] == groups.drop_last()[i]);
            }
        }
    }
}

/// Reads the attribute's items into affinity groups: an item
/// `field = n` with `n` an unsuffixed integer adds the field's index to
/// the group for `n`. Items that name no field of the struct, or whose
/// group is no unsuffixed integer, are reported; other items are passed
/// over.
pub fn collect_affinity_groups(field_names: &Vec<String>, items: &Vec<AttrItem>) -> (r: (
    Vec<AffinityGroup>,
    Vec<AffinityError>,
))
    requires
        forall|i: int|
            0 <= i < items@.len() ==> !sets_unknown_field(
                names_model(field_names@),
                #[trigger] items@[i],
            ),
    ensures
        groups_model(r.0@) == spec_groups(names_model(field_names@), items@),
        r.1@ == spec_errors(names_model(field_names@), items@),
{
    let ghost names = names_model(field_names@);
    let mut groups: Vec<AffinityGroup> = Vec::new();
    let mut errors: Vec<AffinityError> = Vec::new();
    for i in 0..items.len()
        invariant
            names == names_model(field_names@),
            forall|k: int| 0 <= k < items@.len() ==> !sets_unknown_field(names, #[trigger] items@[k]),
            groups_model(groups@) == spec_groups(names, items@.take(i as int)),
            errors@ == spec_errors(names, items@.take(i as int)),
    {
        let ghost t = items@.take(i + 1);
        proof {
            assert(t.drop_last() =~= items@.take(i as int));
            assert(t.last() == items@[i as int]);
        }
        match &items[i] {
            AttrItem::NameValue { field, value } => {
                let pos = field_position(field_names, field);
                if pos.is_none() {
                    errors.push(AffinityError::UnknownField(i));
                }
                match value {
                    LitKind::UnsuffixedInt(v) => {
                        let a = *v as usize;
                        let f = pos.unwrap();
                        let ghost before = groups_model(groups@);
                        match position_of_group(&groups, a) {
                            Some(p) => {
                                proof {
                                    lemma_group_position_bounds(before, a);
                                }
                                let mut g = groups.remove(p);
                                g.fields.push(f);
                                groups.insert(p, g);
                                proof {
                                    assert(groups_model(groups@) =~= add_to_group(before, a, f));
                                }
                            },
                            None => {
                                let mut fs: Vec<usize> = Vec::new();
                                fs.push(f);
                                groups.push(AffinityGroup { affinity: a, fields: fs });
                                proof {
                                    assert(groups_model(groups@) =~= add_to_group(before, a, f));
                                }
                            },
                        }
                    },
                    LitKind::Other => {
                        errors.push(AffinityError::NotUnsuffixedInt(i));
                    },
                }
            },
            AttrItem::Other => {},
        }
        proof {
            assert(errors@ =~= spec_errors(names, t));
        }
    }
    proof {
        assert(items@.take(items@.len() as int) =~= items@);
    }
    (groups, errors)
}

/// What the attribute on a struct expands to: the split struct, the child
/// structs to declare, and the errors to report.
pub struct Expansion {
    pub split: SplitStruct,
    pub children: Vec<ChildStruct>,
    pub errors: Vec<AffinityError>,
}

/// Expands the attribute on struct `struct_name`, whose fields are named
/// `field_names` in order: reads the items into affinity groups and splits
/// the struct by them.
pub fn expand(struct_name: String, field_names: &Vec<String>, items: &Vec<AttrItem>) -> (r: Expansion)
    requires
        forall|i: int|
            0 <= i < items@.len() ==> !sets_unknown_field(
                names_model(field_names@),
                #[trigger] items@[i],
            ),
    ensures
        ({
            let groups = spec_groups(names_model(field_names@), items@);
            &&& r.errors@ == spec_errors(names_model(field_names@), items@)
            &&& r.split.name@ == struct_name@
            &&& r.split.child_names@.len() == groups.len()
            &&& r.children@.len() == groups.len()
            &&& forall|i: int|
                0 <= i < groups.len() ==> (#[trigger] r.split.child_names@[i])@ == child_name(
                    struct_name@,
                    groups[i].0,
                )
            &&& forall|i: int|
                0 <= i < groups.len() ==> (#[trigger] r.children@[i]).name@ == child_name(
                    struct_name@,
                    groups[i].0,
                ) && r.children@[i].fields@ == groups[i].1
            &&& crate::split_struct::field_map_model(r.split.field_map@) == spec_field_map(
                struct_name@,
                groups,
            )
        }),
{
    let (groups, errors) = collect_affinity_groups(field_names, items);
    let ghost gm = groups_model(groups@);
    proof {
        lemma_groups_distinct(names_model(field_names@), items@);
    }
    let (split, children) = SplitStruct::process_declarations(struct_name, groups);
    proof {
        assert forall|i: int| 0 <= i < gm.len() implies gm[i].0 == groups@[i].affinity
            && gm[i].1 == groups@[i].fields@ by {
            assert(gm[i] == group_model(groups@[i]));
        }
    }
    Expansion { split, children, errors }
}

} // verus!
