//! How a struct is split: the child structs that its affinity groups make,
//! and where each field of the struct goes.
use std::collections::HashMap;
use vstd::prelude::*;

use crate::hir::{matching_items, node_type, Hir};
use crate::local_map::{lm_insert, LocalMap};
use crate::mir::{Local, LocalDecl, Mir};
use crate::names::{decimal, name_with_number};
use crate::ty::{walk, AdtId, Ty, TyCtxt, TyKind};
use crate::walkmut::{split_as, splits, SplitTypeModifier, TypeModifier};

verus! {

broadcast use vstd::std_specs::hash::group_hash_axioms;

/// The fields of one affinity group, as indices of the fields of the
/// struct, in the order the attribute lists them.
pub struct AffinityGroup {
    pub affinity: usize,
    pub fields: Vec<usize>,
}

/// A child struct to be declared: its name and, in order, the indices of
/// the fields of the split struct that it holds.
pub struct ChildStruct {
    pub name: String,
    pub fields: Vec<usize>,
}

/// A split struct: its name, the names of its children, and for each field
/// index of the struct the child that holds it and the field's index there.
pub struct SplitStruct {
    pub name: String,
    pub child_names: Vec<String>,
    pub field_map: HashMap<usize, (String, usize)>,
}

/// The name of the child of struct `name` for affinity group `affinity`.
pub open spec fn child_name(name: Seq<char>, affinity: usize) -> Seq<char> {
    name + decimal(affinity as nat)
}

/// An affinity group as plain values.
pub open spec fn group_model(g: AffinityGroup) -> (usize, Seq<usize>) {
    (g.affinity, g.fields@)
}

pub open spec fn groups_model(gs: Seq<AffinityGroup>) -> Seq<(usize, Seq<usize>)> {
    gs.map_values(|g: AffinityGroup| group_model(g))
}

/// A field map with its strings taken by their characters.
pub open spec fn field_map_model(m: Map<usize, (String, usize)>) -> Map<usize, (Seq<char>, usize)> {
    Map::new(|k: usize| m.dom().contains(k), |k: usize| (m[k].0@, m[k].1))
}

/// Places the fields of one group into child `child`: a field goes to the
/// index that counts the distinct fields listed before it in the group.
pub open spec fn group_places(
    m: Map<usize, (Seq<char>, usize)>,
    child: Seq<char>,
    fields: Seq<usize>,
) -> Map<usize, (Seq<char>, usize)>
    decreases fields.len(),
{
    if fields.len() == 0 {
        m
    } else {
        let prev = fields.drop_last();
        group_places(m, child, prev).insert(
            fields.last(),
            (child, prev.to_set().len() as usize),
        )
    }
}

/// The field map that the groups, taken in order, give to struct `name`.
pub open spec fn spec_field_map(name: Seq<char>, groups: Seq<(usize, Seq<usize>)>) -> Map<
    usize,
    (Seq<char>, usize),
>
    decreases groups.len(),
{
    if groups.len() == 0 {
        Map::empty()
    } else {
        group_places(
            spec_field_map(name, groups.drop_last()),
            child_name(name, groups.last().0),
            groups.last().1,
        )
    }
}

fn copy_indices(v: &Vec<usize>) -> (r: Vec<usize>)
    ensures
        r@ == v@,
{
    let mut r: Vec<usize> = Vec::new();
    for i in 0..v.len()
        invariant
            r@ == v@.take(i as int),
    {
        r.push(v[i]);
        proof {
            assert(v@.take(i + 1) =~= v@.take(i as int).push(v@[i as int]));
        }
    }
    proof {
        assert(v@.take(v@.len() as int) =~= v@);
    }
    r
}

fn contains_index(v: &Vec<usize>, x: usize) -> (r: bool)
    ensures
        r == v@.contains(x),
{
    for i in 0..v.len()
        invariant
            forall|j: int| 0 <= j < i ==> v@[j] != x,
    {
        if v[i] == x {
            return true;
        }
    }
    false
}

/// No field index is listed twice, within a group or across groups.
pub open spec fn fields_listed_once(groups: Seq<(usize, Seq<usize>)>) -> bool {
    forall|g1: int, j1: int, g2: int, j2: int|
        0 <= g1 < groups.len() && 0 <= g2 < groups.len() && 0 <= j1 < groups[g1].1.len() && 0
            <= j2 < groups[g2].1.len() && (g1 != g2 || j1 != j2) ==> #[trigger] groups[g1].1[j1]
            != #[trigger] groups[g2].1[j2]
}

proof fn lemma_group_places(m: Map<usize, (Seq<char>, usize)>, child: Seq<char>, fields: Seq<usize>)
    requires
        fields.no_duplicates(),
    ensures
        forall|j: int|
            0 <= j < fields.len() ==> #[trigger] group_places(m, child, fields)[fields[j]] == (
                child,
                j as usize,
            ),
        group_places(m, child, fields).dom() == m.dom().union(fields.to_set()),
        forall|k: usize|
            !fields.contains(k) && m.dom().contains(k) ==> #[trigger] group_places(
                m,
                child,
                fields,
            )[k] == m[k],
    decreases fields.len(),
{
    if fields.len() > 0 {
        let prev = fields.drop_last();
        assert(prev.no_duplicates());
        lemma_group_places(m, child, prev);
        prev.unique_seq_to_set();
        prev.lemma_push_to_set_commute(fields.last());
        assert(prev.push(fields.last()) =~= fields);
        let r = group_places(m, child, fields);
        assert forall|j: int| 0 <= j < fields.len() implies #[trigger] r[fields[j]] == (
            child,
            j as usize,
        ) by {
            if j < fields.len() - 1 {
                assert(fields[j] == prev[j]);
                assert(fields[j] != fields.last());
            }
        }
        assert(r.dom() =~= m.dom().union(fields.to_set()));
        assert forall|k: usize| !fields.contains(k) && m.dom().contains(k) implies #[trigger] r[k]
            == m[k] by {
            if prev.contains(k) {
                let i = choose|i: int| 0 <= i < prev.len() && prev[i] == k;
                assert(fields[i] == k);
            }
        }
    } else {
        assert(fields.to_set() =~= Set::empty());
        assert(m.dom().union(fields.to_set()) =~= m.dom());
    }
}

/// No two groups have the same affinity.
pub open spec fn affinities_distinct(groups: Seq<(usize, Seq<usize>)>) -> bool {
    forall|i: int, j: int| 0 <= i < j < groups.len() ==> #[trigger] groups[i].0 != #[trigger] groups[j].0
}

/// Where the fields go: when no field is listed twice, the field at
/// position `j` of the group for affinity `a` is field `j` of the child
/// named after the struct and `a`, and the map holds exactly the listed
/// fields.
pub proof fn lemma_fields_find_their_child(name: Seq<char>, groups: Seq<(usize, Seq<usize>)>)
    requires
        fields_listed_once(groups),
    ensures
        forall|g: int, j: int|
            0 <= g < groups.len() && 0 <= j < groups[g].1.len() ==> #[trigger] spec_field_map(
                name,
                groups,
            )[groups[g].1[j]] == (child_name(name, groups[g].0), j as usize),
        forall|k: usize|
            #[trigger] spec_field_map(name, groups).dom().contains(k) <==> exists|g: int, j: int|
                0 <= g < groups.len() && 0 <= j < groups[g].1.len() && groups[g].1[j] == k,
    decreases groups.len(),
{
    if groups.len() > 0 {
        let prev = groups.drop_last();
        let last = groups.last();
        let lg = groups.len() - 1;
        assert(fields_listed_once(prev)) by {
            assert forall|g1: int, j1: int, g2: int, j2: int|
                0 <= g1 < prev.len() && 0 <= g2 < prev.len() && 0 <= j1 < prev[g1].1.len() && 0
                    <= j2 < prev[g2].1.len() && (g1 != g2 || j1 != j2) implies #[trigger] prev[g1].1[j1]
                != #[trigger] prev[g2].1[j2] by {
                assert(prev[g1] == groups[g1]);
                assert(prev[g2] == groups[g2]);
                assert(groups[g1].1[j1] != groups[g2].1[j2]);
            }
        }
        lemma_fields_find_their_child(name, prev);
        assert(last.1.no_duplicates()) by {
            assert forall|i: int, j: int|
                0 <= i < last.1.len() && 0 <= j < last.1.len() && i != j implies last.1[i]
                != last.1[j] by {
                assert(groups[lg].1[i] != groups[lg].1[j]);
            }
        }
        let before = spec_field_map(name, prev);
        let c = child_name(name, last.0);
        lemma_group_places(before, c, last.1);
        let r = spec_field_map(name, groups);
        assert(r == group_places(before, c, last.1));
        assert forall|g: int, j: int|
            0 <= g < groups.len() && 0 <= j < groups[g].1.len() implies #[trigger] r[groups[g].1[j]]
            == (child_name(name, groups[g].0), j as usize) by {
            if g < lg {
                assert(prev[g] == groups[g]);
                let k = groups[g].1[j];
                assert(before[prev[g].1[j]] == (child_name(name, prev[g].0), j as usize));
                assert(before.dom().contains(k));
                if last.1.contains(k) {
                    let i = choose|i: int| 0 <= i < last.1.len() && last.1[i] == k;
                    assert(groups[lg].1[i] != groups[g].1[j]);
                }
            }
        }
        assert forall|k: usize| #[trigger] r.dom().contains(k) <==> exists|g: int, j: int|
            0 <= g < groups.len() && 0 <= j < groups[g].1.len() && groups[g].1[j] == k by {
            if r.dom().contains(k) {
                if before.dom().contains(k) {
                    let (g, j) = choose|g: int, j: int|
                        0 <= g < prev.len() && 0 <= j < prev[g].1.len() && prev[g].1[j] == k;
                    assert(groups[g] == prev[g]);
                } else {
                    assert(last.1.to_set().contains(k));
                    let i = choose|i: int| 0 <= i < last.1.len() && last.1[i] == k;
                    assert(groups[lg].1[i] == k);
                }
            }
            if exists|g: int, j: int|
                0 <= g < groups.len() && 0 <= j < groups[g].1.len() && groups[g].1[j] == k {
                let (g, j) = choose|g: int, j: int|
                    0 <= g < groups.len() && 0 <= j < groups[g].1.len() && groups[g].1[j] == k;
                if g < lg {
                    assert(prev[g] == groups[g]);
                    assert(prev[g].1[j] == k);
                    assert(before.dom().contains(k));
                } else {
                    assert(last.1[j] == k);
                    assert(last.1.to_set().contains(k));
                }
            }
        }
    }
}

/// Child indices are dense and distinct: when no field is listed twice
/// and no two groups share an affinity, every field goes to a child named
/// after one of the groups with an index below the group's size, the
/// field at position `j` of a group takes index `j` in its child, and no
/// two fields share a child and an index.
pub proof fn lemma_child_indices_dense(name: Seq<char>, groups: Seq<(usize, Seq<usize>)>)
    requires
        fields_listed_once(groups),
        affinities_distinct(groups),
        forall|g: int| 0 <= g < groups.len() ==> (#[trigger] groups[g]).1.len() <= usize::MAX,
    ensures
        ({
            let m = spec_field_map(name, groups);
            &&& forall|f: usize|
                #[trigger] m.dom().contains(f) ==> exists|g: int|
                    0 <= g < groups.len() && m[f].0 == child_name(name, groups[g].0) && m[f].1 < groups[g].1.len()
            &&& forall|g: int, j: int|
                0 <= g < groups.len() && 0 <= j < groups[g].1.len() ==> m.dom().contains(#[trigger] groups[g].1[j])
                    && m[groups[g].1[j]].0 == child_name(name, groups[g].0) && m[groups[g].1[j]].1 == j
            &&& forall|f1: usize, f2: usize|
                #[trigger] m.dom().contains(f1) && #[trigger] m.dom().contains(f2) && f1 != f2 ==> m[f1] != m[f2]
        }),
{
    let m = spec_field_map(name, groups);
    lemma_fields_find_their_child(name, groups);
    assert forall|f: usize| #[trigger] m.dom().contains(f) implies exists|g: int|
        0 <= g < groups.len() && m[f].0 == child_name(name, groups[g].0) && m[f].1 < groups[g].1.len() by {
        let (g, j) = choose|g: int, j: int| 0 <= g < groups.len() && 0 <= j < groups[g].1.len() && groups[g].1[j] == f;
        assert(m[groups[g].1[j]] == (child_name(name, groups[g].0), j as usize));
    }
    assert forall|g: int, j: int| 0 <= g < groups.len() && 0 <= j < groups[g].1.len() implies m.dom().contains(
        #[trigger] groups[g].1[j],
    ) && m[groups[g].1[j]].0 == child_name(name, groups[g].0) && m[groups[g].1[j]].1 == j by {
        assert(groups[g].1.len() <= usize::MAX);
        assert(m[groups[g].1[j]] == (child_name(name, groups[g].0), j as usize));
    }
    assert forall|f1: usize, f2: usize|
        #[trigger] m.dom().contains(f1) && #[trigger] m.dom().contains(f2) && f1 != f2 implies m[f1] != m[f2] by {
        let (g1, j1) = choose|g: int, j: int| 0 <= g < groups.len() && 0 <= j < groups[g].1.len() && groups[g].1[j] == f1;
        let (g2, j2) = choose|g: int, j: int| 0 <= g < groups.len() && 0 <= j < groups[g].1.len() && groups[g].1[j] == f2;
        assert(m[groups[g1].1[j1]] == (child_name(name, groups[g1].0), j1 as usize));
        assert(m[groups[g2].1[j2]] == (child_name(name, groups[g2].0), j2 as usize));
        assert(groups[g1].1.len() <= usize::MAX);
        assert(groups[g2].1.len() <= usize::MAX);
        if g1 == g2 {
            assert(j1 != j2);
        } else {
            if g1 < g2 {
                assert(groups[g1].0 != groups[g2].0);
            } else {
                assert(groups[g2].0 != groups[g1].0);
            }
            lemma_child_names_distinct(name, groups[g1].0, groups[g2].0);
        }
    }
}

/// Each affinity group gets a child of its own: the children of two
/// different groups of a struct have different names.
pub proof fn lemma_child_names_distinct(name: Seq<char>, a: usize, b: usize)
    requires
        a != b,
    ensures
        child_name(name, a) != child_name(name, b),
{
    if child_name(name, a) == child_name(name, b) {
        let da = decimal(a as nat);
        let db = decimal(b as nat);
        assert((name + da).subrange(name.len() as int, (name + da).len() as int) =~= da);
        assert((name + db).subrange(name.len() as int, (name + db).len() as int) =~= db);
        crate::names::lemma_decimal_injective(a as nat, b as nat);
    }
}

impl SplitStruct {
    /// Splits struct `name` by its affinity groups: one child per group,
    /// named after the struct and the group's affinity, holding the
    /// group's fields in order.
    pub fn process_declarations(name: String, declarations: Vec<AffinityGroup>) -> (r: (
        SplitStruct,
        Vec<ChildStruct>,
    ))
        requires
            affinities_distinct(groups_model(declarations@)),
        ensures
            r.0.name@ == name@,
            r.0.child_names@.len() == declarations@.len(),
            forall|i: int|
                0 <= i < declarations@.len() ==> (#[trigger] r.0.child_names@[i])@ == child_name(
                    name@,
                    declarations@[i].affinity,
                ),
            field_map_model(r.0.field_map@) == spec_field_map(name@, groups_model(declarations@)),
            r.1@.len() == declarations@.len(),
            forall|i: int|
                0 <= i < declarations@.len() ==> (#[trigger] r.1@[i]).name@ == child_name(
                    name@,
                    declarations@[i].affinity,
                ) && r.1@[i].fields@ == declarations@[i].fields@,
    {
        let mut created_structs: Vec<ChildStruct> = Vec::new();
        let mut child_names: Vec<String> = Vec::new();
        let mut field_map: HashMap<usize, (String, usize)> = HashMap::new();
        let ghost gm = groups_model(declarations@);
        let n = declarations.len();
        for gi in 0..n
            invariant
                n == declarations@.len(),
                gm == groups_model(declarations@),
                child_names@.len() == gi,
                created_structs@.len() == gi,
                forall|i: int|
                    0 <= i < gi ==> (#[trigger] child_names@[i])@ == child_name(
                        name@,
                        declarations@[i].affinity,
                    ),
                forall|i: int|
                    0 <= i < gi ==> (#[trigger] created_structs@[i]).name@ == child_name(
                        name@,
                        declarations@[i].affinity,
                    ) && created_structs@[i].fields@ == declarations@[i].fields@,
                field_map_model(field_map@) == spec_field_map(name@, gm.take(gi as int)),
        {
            let group = &declarations[gi];
            let child_struct_name = name_with_number(&name, group.affinity);
            child_names.push(child_struct_name.clone());
            let ghost before = field_map_model(field_map@);
            let mut seen: Vec<usize> = Vec::new();
            let fields = &group.fields;
            for j in 0..fields.len()
                invariant
                    seen@.no_duplicates(),
                    seen@.to_set() == fields@.take(j as int).to_set(),
                    child_struct_name@ == child_name(name@, group.affinity),
                    field_map_model(field_map@) == group_places(
                        before,
                        child_struct_name@,
                        fields@.take(j as int),
                    ),
            {
                let field_number = fields[j];
                let field_index = seen.len();
                proof {
                    seen@.unique_seq_to_set();
                }
                field_map.insert(field_number, (child_struct_name.clone(), field_index));
                proof {
                    let t = fields@.take(j + 1);
                    assert(t.drop_last() =~= fields@.take(j as int));
                    assert(t.last() == field_number);
                    assert(field_map_model(field_map@) =~= group_places(
                        before,
                        child_struct_name@,
                        t,
                    ));
                }
                let ghost seen_before = seen@;
                if !contains_index(&seen, field_number) {
                    seen.push(field_number);
                    proof {
                        seen_before.lemma_push_to_set_commute(field_number);
                    }
                } else {
                    assert(seen_before.to_set().contains(field_number));
                    assert(seen_before.to_set().insert(field_number) =~= seen_before.to_set());
                }
                proof {
                    fields@.take(j as int).lemma_push_to_set_commute(field_number);
                    assert(fields@.take(j + 1) =~= fields@.take(j as int).push(field_number));
                    assert(fields@.take(j + 1).to_set() =~= fields@.take(j as int).to_set().insert(
                        field_number,
                    ));
                    assert(seen@.to_set() =~= fields@.take(j + 1).to_set());
                }
            }
            proof {
                assert(fields@.take(fields@.len() as int) =~= fields@);
                let t = gm.take(gi + 1);
                assert(t.drop_last() =~= gm.take(gi as int));
                assert(t.last() == group_model(declarations@[gi as int]));
            }
            created_structs.push(ChildStruct { name: child_struct_name, fields: copy_indices(fields) });
        }
        proof {
            assert(gm.take(n as int) =~= gm);
        }
        (SplitStruct { name, child_names, field_map }, created_structs)
    }
}

/// The split structs known so far, by name; the first one registered under
/// a name stays.
pub struct SplitRegistry {
    pub structs: Vec<SplitStruct>,
}

/// The position of the first struct called `n`, or `-1`.
pub open spec fn registered_position(structs: Seq<SplitStruct>, n: Seq<char>) -> int
    decreases structs.len(),
{
    if structs.len() == 0 {
        -1
    } else {
        let p = registered_position(structs.drop_last(), n);
        if p >= 0 {
            p
        } else if structs.last().name@ == n {
            structs.len() - 1
        } else {
            -1
        }
    }
}

proof fn lemma_registered_position(structs: Seq<SplitStruct>, n: Seq<char>)
    ensures
        -1 <= registered_position(structs, n) < structs.len(),
        registered_position(structs, n) >= 0 ==> structs[registered_position(structs, n)].name@ == n,
        registered_position(structs, n) == -1 <==> forall|i: int|
            0 <= i < structs.len() ==> (#[trigger] structs[i]).name@ != n,
    decreases structs.len(),
{
    if structs.len() > 0 {
        let prev = structs.drop_last();
        lemma_registered_position(prev, n);
        if registered_position(prev, n) == -1 {
            assert forall|i: int| 0 <= i < prev.len() implies (#[trigger] structs[i]).name@ != n by {
                assert(prev[i] == structs[i]);
            }
        } else {
            let p = registered_position(prev, n);
            assert(prev[p] == structs[p]);
        }
    }
}

impl SplitRegistry {
    /// An empty registry.
    pub fn new() -> (r: SplitRegistry)
        ensures
            r.structs@.len() == 0,
    {
        SplitRegistry { structs: Vec::new() }
    }

    /// Records `s` unless a struct of the same name is known already.
    pub fn register(&mut self, s: SplitStruct)
        ensures
            registered_position(old(self).structs@, s.name@) >= 0 ==> final(self).structs@ == old(
                self,
            ).structs@,
            registered_position(old(self).structs@, s.name@) == -1 ==> final(self).structs@ == old(
                self,
            ).structs@.push(s),
    {
        match self.get(&s.name) {
            Some(_) => {},
            None => {
                self.structs.push(s);
            },
        }
    }

    /// The struct registered under `name`.
    pub fn get(&self, name: &String) -> (r: Option<&SplitStruct>)
        ensures
            match r {
                Some(s) => {
                    let p = registered_position(self.structs@, name@);
                    p >= 0 && *s == self.structs@[p]
                },
                None => registered_position(self.structs@, name@) == -1,
            },
    {
        let ghost ss = self.structs@;
        let mut i: usize = 0;
        while i < self.structs.len()
            invariant
                ss == self.structs@,
                i <= ss.len(),
                registered_position(ss.take(i as int), name@) == -1,
            decreases ss.len() - i,
        {
            proof {
                assert(ss.take(i + 1).drop_last() =~= ss.take(i as int));
            }
            if self.structs[i].name == *name {
                proof {
                    assert(ss.take(i + 1).last() == ss[i as int]);
                    assert(registered_position(ss.take(i + 1), name@) == i);
                    lemma_prefix_position(ss, i + 1, name@);
                }
                return Some(&self.structs[i]);
            }
            i = i + 1;
        }
        proof {
            assert(ss.take(ss.len() as int) =~= ss);
        }
        None
    }
}

proof fn lemma_prefix_position(ss: Seq<SplitStruct>, k: int, n: Seq<char>)
    requires
        0 <= k <= ss.len(),
        registered_position(ss.take(k), n) >= 0,
    ensures
        registered_position(ss, n) == registered_position(ss.take(k), n),
    decreases ss.len() - k,
{
    if k < ss.len() {
        assert(ss.take(k + 1).drop_last() =~= ss.take(k));
        lemma_prefix_position(ss, k + 1, n);
    } else {
        assert(ss.take(k) =~= ss);
    }
}

/// What a lookup gives back of a registration: after `s` is registered,
/// the struct found under its name is the first one ever registered under
/// that name, which is `s` when the name was new.
pub proof fn lemma_register_then_get(before: Seq<SplitStruct>, s: SplitStruct)
    ensures
        ({
            let after = if registered_position(before, s.name@) >= 0 {
                before
            } else {
                before.push(s)
            };
            let p = registered_position(after, s.name@);
            &&& p >= 0
            &&& registered_position(before, s.name@) == -1 ==> after[p] == s
            &&& registered_position(before, s.name@) >= 0 ==> after[p] == before[registered_position(
                before,
                s.name@,
            )]
        }),
{
    lemma_registered_position(before, s.name@);
    if registered_position(before, s.name@) == -1 {
        let after = before.push(s);
        assert(after.drop_last() =~= before);
        assert(registered_position(after, s.name@) == before.len());
    }
}

/// For each type of a split struct, the split struct, by its position in
/// the registry.
pub struct SplitMap {
    pub entries: Vec<(Ty, usize)>,
}

/// For each item of a split struct, the items of its children.
pub struct NodeMap {
    pub entries: Vec<(u64, Vec<u64>)>,
}

/// The position of the last pair for `t`, or `-1`.
pub open spec fn ty_position(m: Seq<(Ty, usize)>, t: Ty) -> int
    decreases m.len(),
{
    if m.len() == 0 {
        -1
    } else if m.last().0 == t {
        m.len() - 1
    } else {
        ty_position(m.drop_last(), t)
    }
}

/// The split struct of type `t`, if it has one.
pub open spec fn split_of(m: Seq<(Ty, usize)>, t: Ty) -> Option<usize> {
    let p = ty_position(m, t);
    if p < 0 {
        None
    } else {
        Some(m[p].1)
    }
}

/// Sets the split struct of `t` to `i`.
pub open spec fn sm_insert(m: Seq<(Ty, usize)>, t: Ty, i: usize) -> Seq<(Ty, usize)> {
    let p = ty_position(m, t);
    if p < 0 {
        m.push((t, i))
    } else {
        m.update(p, (t, i))
    }
}

/// The position of the last entry for node `k`, or `-1`.
pub open spec fn node_position(m: Seq<(u64, Seq<u64>)>, k: u64) -> int
    decreases m.len(),
{
    if m.len() == 0 {
        -1
    } else if m.last().0 == k {
        m.len() - 1
    } else {
        node_position(m.drop_last(), k)
    }
}

/// The children of node `k`, if it has an entry.
pub open spec fn nm_get(m: Seq<(u64, Seq<u64>)>, k: u64) -> Option<Seq<u64>> {
    let p = node_position(m, k);
    if p < 0 {
        None
    } else {
        Some(m[p].1)
    }
}

/// Adds child `v` to node `k`, adding an entry for `k` where there is none.
pub open spec fn nm_push(m: Seq<(u64, Seq<u64>)>, k: u64, v: u64) -> Seq<(u64, Seq<u64>)> {
    let p = node_position(m, k);
    if p < 0 {
        m.push((k, seq![v]))
    } else {
        m.update(p, (k, m[p].1.push(v)))
    }
}

pub open spec fn nm_model(m: Seq<(u64, Vec<u64>)>) -> Seq<(u64, Seq<u64>)> {
    m.map_values(|e: (u64, Vec<u64>)| (e.0, e.1@))
}

proof fn lemma_node_position(m: Seq<(u64, Seq<u64>)>, k: u64)
    ensures
        -1 <= node_position(m, k) < m.len(),
        node_position(m, k) >= 0 ==> m[node_position(m, k)].0 == k,
    decreases m.len(),
{
    if m.len() > 0 {
        lemma_node_position(m.drop_last(), k);
    }
}

impl SplitMap {
    pub fn new() -> (r: SplitMap)
        ensures
            r.entries@.len() == 0,
    {
        SplitMap { entries: Vec::new() }
    }

    fn position(&self, t: Ty) -> (r: Option<usize>)
        ensures
            match r {
                Some(p) => p < self.entries@.len() && p as int == ty_position(self.entries@, t),
                None => ty_position(self.entries@, t) == -1,
            },
    {
        let ghost m = self.entries@;
        let mut found: Option<usize> = None;
        for i in 0..self.entries.len()
            invariant
                m == self.entries@,
                match found {
                    Some(k) => k < i && k as int == ty_position(m.take(i as int), t),
                    None => ty_position(m.take(i as int), t) == -1,
                },
        {
            proof {
                assert(m.take(i + 1).drop_last() =~= m.take(i as int));
            }
            if self.entries[i].0 == t {
                found = Some(i);
            }
        }
        proof {
            assert(m.take(m.len() as int) =~= m);
        }
        found
    }

    /// The split struct of type `t`.
    pub fn get(&self, t: Ty) -> (r: Option<usize>)
        ensures
            r == split_of(self.entries@, t),
    {
        match self.position(t) {
            Some(p) => Some(self.entries[p].1),
            None => None,
        }
    }

    /// Sets the split struct of `t` to `i`.
    pub fn insert(&mut self, t: Ty, i: usize)
        ensures
            final(self).entries@ == sm_insert(old(self).entries@, t, i),
    {
        match self.position(t) {
            Some(p) => {
                self.entries.set(p, (t, i));
            },
            None => {
                self.entries.push((t, i));
            },
        }
    }
}

impl NodeMap {
    pub fn new() -> (r: NodeMap)
        ensures
            r.entries@.len() == 0,
    {
        NodeMap { entries: Vec::new() }
    }

    fn position(&self, k: u64) -> (r: Option<usize>)
        ensures
            match r {
                Some(p) => p < self.entries@.len() && p as int == node_position(nm_model(self.entries@), k),
                None => node_position(nm_model(self.entries@), k) == -1,
            },
    {
        let ghost m = nm_model(self.entries@);
        let mut found: Option<usize> = None;
        for i in 0..self.entries.len()
            invariant
                m == nm_model(self.entries@),
                match found {
                    Some(j) => j < i && j as int == node_position(m.take(i as int), k),
                    None => node_position(m.take(i as int), k) == -1,
                },
        {
            proof {
                assert(m.take(i + 1).drop_last() =~= m.take(i as int));
            }
            if self.entries[i].0 == k {
                found = Some(i);
            }
        }
        proof {
            assert(m.take(m.len() as int) =~= m);
        }
        found
    }

    /// The children of node `k`.
    pub fn get(&self, k: u64) -> (r: Option<&Vec<u64>>)
        ensures
            match r {
                Some(v) => nm_get(nm_model(self.entries@), k) == Some(v@),
                None => nm_get(nm_model(self.entries@), k) is None,
            },
    {
        match self.position(k) {
            Some(p) => Some(&self.entries[p].1),
            None => None,
        }
    }

    /// Adds child `v` to node `k`.
    pub fn push(&mut self, k: u64, v: u64)
        ensures
            nm_model(final(self).entries@) == nm_push(nm_model(old(self).entries@), k, v),
    {
        let ghost m = nm_model(self.entries@);
        let ghost es = self.entries@;
        match self.position(k) {
            Some(p) => {
                proof {
                    lemma_node_position(m, k);
                }
                let (key, mut vs) = self.entries.remove(p);
                vs.push(v);
                self.entries.insert(p, (key, vs));
                proof {
                    assert(self.entries@ =~= es.update(p as int, (key, vs)));
                    assert(nm_model(self.entries@) =~= nm_push(m, k, v));
                }
            },
            None => {
                let mut vs: Vec<u64> = Vec::new();
                vs.push(v);
                self.entries.push((k, vs));
                proof {
                    assert(nm_model(self.entries@) =~= nm_push(m, k, v));
                }
            },
        }
    }
}

/// Adds each of `children` to node `k`, in order.
pub open spec fn push_children(m: Seq<(u64, Seq<u64>)>, k: u64, children: Seq<(u64, Ty)>) -> Seq<
    (u64, Seq<u64>),
>
    decreases children.len(),
{
    if children.len() == 0 {
        m
    } else {
        nm_push(push_children(m, k, children.drop_last()), k, children.last().0)
    }
}

/// Adds to node `k` the items of each of the child names, in order.
pub open spec fn push_child_names(
    m: Seq<(u64, Seq<u64>)>,
    items: Seq<crate::hir::HirItem>,
    k: u64,
    names: Seq<String>,
) -> Seq<(u64, Seq<u64>)>
    decreases names.len(),
{
    if names.len() == 0 {
        m
    } else {
        push_children(
            push_child_names(m, items, k, names.drop_last()),
            k,
            matching_items(items, names.last()@),
        )
    }
}

/// Records split struct `i`, whose items are `nodes`: each item's type is
/// mapped to `i`, and each item gets the items of the struct's children.
pub open spec fn add_struct_items(
    maps: (Seq<(u64, Seq<u64>)>, Seq<(Ty, usize)>),
    items: Seq<crate::hir::HirItem>,
    s: SplitStruct,
    i: usize,
    nodes: Seq<(u64, Ty)>,
) -> (Seq<(u64, Seq<u64>)>, Seq<(Ty, usize)>)
    decreases nodes.len(),
{
    if nodes.len() == 0 {
        maps
    } else {
        let prev = add_struct_items(maps, items, s, i, nodes.drop_last());
        let (node, ty) = nodes.last();
        (push_child_names(prev.0, items, node, s.child_names@), sm_insert(prev.1, ty, i))
    }
}

/// The node map and split map that the registered structs give, taking
/// the structs in order.
pub open spec fn split_ty_maps(items: Seq<crate::hir::HirItem>, structs: Seq<SplitStruct>) -> (
    Seq<(u64, Seq<u64>)>,
    Seq<(Ty, usize)>,
)
    decreases structs.len(),
{
    if structs.len() == 0 {
        (seq![], seq![])
    } else {
        let i = structs.len() - 1;
        add_struct_items(
            split_ty_maps(items, structs.drop_last()),
            items,
            structs[i],
            i as usize,
            matching_items(items, structs[i].name@),
        )
    }
}

/// Finds the items of the registered split structs and of their children:
/// the node map sends each item of a split struct to the items of its
/// children, and the split map sends its type to the split struct.
pub fn make_split_ty_map(hir: &Hir, string_map: &SplitRegistry) -> (r: (NodeMap, SplitMap))
    ensures
        (nm_model(r.0.entries@), r.1.entries@) == split_ty_maps(hir.items@, string_map.structs@),
{
    let ghost items = hir.items@;
    let ghost structs = string_map.structs@;
    let mut split_map = NodeMap::new();
    let mut ty2structsplit = SplitMap::new();
    proof {
        assert(nm_model(split_map.entries@) =~= seq![]);
    }
    for si in 0..string_map.structs.len()
        invariant
            items == hir.items@,
            structs == string_map.structs@,
            (nm_model(split_map.entries@), ty2structsplit.entries@) == split_ty_maps(
                items,
                structs.take(si as int),
            ),
    {
        let child_split = &string_map.structs[si];
        let nodes = hir.nodes_matching_suffix(&child_split.name);
        let ghost start = (nm_model(split_map.entries@), ty2structsplit.entries@);
        for ni in 0..nodes.len()
            invariant
                items == hir.items@,
                nodes@ == matching_items(items, child_split.name@),
                (nm_model(split_map.entries@), ty2structsplit.entries@) == add_struct_items(
                    start,
                    items,
                    *child_split,
                    si,
                    nodes@.take(ni as int),
                ),
        {
            let (nodeid, ty) = nodes[ni];
            let ghost prev_nm = nm_model(split_map.entries@);
            ty2structsplit.insert(ty, si);
            for ci in 0..child_split.child_names.len()
                invariant
                    items == hir.items@,
                    nm_model(split_map.entries@) == push_child_names(
                        prev_nm,
                        items,
                        nodeid,
                        child_split.child_names@.take(ci as int),
                    ),
            {
                let child_nodes = hir.nodes_matching_suffix(&child_split.child_names[ci]);
                let ghost before_children = nm_model(split_map.entries@);
                for k in 0..child_nodes.len()
                    invariant
                        nm_model(split_map.entries@) == push_children(
                            before_children,
                            nodeid,
                            child_nodes@.take(k as int),
                        ),
                {
                    split_map.push(nodeid, child_nodes[k].0);
                    proof {
                        assert(child_nodes@.take(k + 1).drop_last() =~= child_nodes@.take(k as int));
                    }
                }
                proof {
                    assert(child_nodes@.take(child_nodes@.len() as int) =~= child_nodes@);
                    assert(child_split.child_names@.take(ci + 1).drop_last() =~= child_split.child_names@.take(
                        ci as int,
                    ));
                }
            }
            proof {
                assert(child_split.child_names@.take(child_split.child_names@.len() as int)
                    =~= child_split.child_names@);
                assert(nodes@.take(ni + 1).drop_last() =~= nodes@.take(ni as int));
            }
        }
        proof {
            assert(nodes@.take(nodes@.len() as int) =~= nodes@);
            assert(structs.take(si + 1).drop_last() =~= structs.take(si as int));
        }
    }
    proof {
        assert(structs.take(structs.len() as int) =~= structs);
    }
    (split_map, ty2structsplit)
}

/// A child local to make: the local, the split ADT, the child's type and
/// the child's ADT.
pub type Candidate = (Local, AdtId, Ty, AdtId);

/// The children that local `l` of type `t` gets for child items `ids` of
/// ADT `adt`: one for each child whose type is an ADT, when `t` can be
/// split by replacing `adt`.
pub open spec fn child_candidates(
    tcx: &TyCtxt,
    items: Seq<crate::hir::HirItem>,
    l: Local,
    t: Ty,
    adt: AdtId,
    ids: Seq<u64>,
) -> Seq<Candidate>
    decreases ids.len(),
{
    if ids.len() == 0 {
        seq![]
    } else {
        let prev = child_candidates(tcx, items, l, t, adt, ids.drop_last());
        let cty = node_type(items, ids.last())->0;
        match tcx.kind(cty) {
            TyKind::Adt(new_adt, _) => if splits(tcx, adt, t) {
                prev.push((l, adt, cty, new_adt))
            } else {
                prev
            },
            _ => prev,
        }
    }
}

/// The children that local `l` of type `t` gets for the types `occ` met
/// while walking `t`: for each split ADT met, its children.
pub open spec fn occurrence_candidates(
    tcx: &TyCtxt,
    nm: Seq<(u64, Seq<u64>)>,
    items: Seq<crate::hir::HirItem>,
    l: Local,
    t: Ty,
    occ: Seq<Ty>,
) -> Seq<Candidate>
    decreases occ.len(),
{
    if occ.len() == 0 {
        seq![]
    } else {
        let prev = occurrence_candidates(tcx, nm, items, l, t, occ.drop_last());
        match tcx.kind(occ.last()) {
            TyKind::Adt(adt, _) => match crate::hir::def_node(items, adt) {
                Some(node) => match nm_get(nm, node) {
                    Some(ids) => prev + child_candidates(tcx, items, l, t, adt, ids),
                    None => prev,
                },
                None => prev,
            },
            _ => prev,
        }
    }
}

/// The children that the first `n` locals get, in order.
pub open spec fn decl_candidates(
    tcx: &TyCtxt,
    nm: Seq<(u64, Seq<u64>)>,
    items: Seq<crate::hir::HirItem>,
    decls: Seq<LocalDecl>,
    n: nat,
) -> Seq<Candidate>
    decreases n,
{
    if n == 0 {
        seq![]
    } else {
        let l = (n - 1) as Local;
        let t = decls[n - 1].ty;
        decl_candidates(tcx, nm, items, decls, (n - 1) as nat) + occurrence_candidates(
            tcx,
            nm,
            items,
            l,
            t,
            walk(tcx, t),
        )
    }
}

/// The decl map that records candidate `k` as local `first + k`.
pub open spec fn candidates_map(c: Seq<Candidate>, first: nat) -> Seq<(Local, Seq<(Ty, Local)>)>
    decreases c.len(),
{
    if c.len() == 0 {
        seq![]
    } else {
        let k = c.len() - 1;
        lm_insert(candidates_map(c.drop_last(), first), c[k].0, c[k].2, (first + k) as Local)
    }
}

/// The children of every node in the node map are items with types of the
/// context.
pub open spec fn node_map_typed(tcx: &TyCtxt, nm: Seq<(u64, Seq<u64>)>, items: Seq<crate::hir::HirItem>) -> bool {
    forall|k: int, j: int|
        0 <= k < nm.len() && 0 <= j < nm[k].1.len() ==> node_type(items, #[trigger] nm[k].1[j]) is Some
            && tcx.has(node_type(items, nm[k].1[j])->0)
}

/// Makes the child locals: for each local, in order, for each ADT met
/// while walking its type whose defining item's node the node map splits,
/// for each child item of that node whose type
/// is an ADT, when the local's type can be split by replacing the ADT by
/// the child's, a new local of the split type is added and recorded as
/// the local's child of the child's type.
pub fn make_decl_map(tcx: &mut TyCtxt, mir: &mut Mir, split_map: &NodeMap, hir: &Hir) -> (r: LocalMap)
    requires
        old(tcx).wf(),
        forall|i: int| 0 <= i < old(mir).local_decls@.len() ==> old(tcx).has(#[trigger] old(mir).local_decls@[i].ty),
        node_map_typed(old(tcx), nm_model(split_map.entries@), hir.items@),
    ensures
        final(tcx).wf(),
        final(tcx).extends(old(tcx)),
        final(mir).basic_blocks == old(mir).basic_blocks,
        final(mir).arg_count == old(mir).arg_count,
        final(mir).return_ty == old(mir).return_ty,
        ({
            let decls = old(mir).local_decls@;
            let c = decl_candidates(old(tcx), nm_model(split_map.entries@), hir.items@, decls, decls.len());
            &&& final(mir).local_decls@.len() == decls.len() + c.len()
            &&& forall|l: int| 0 <= l < decls.len() ==> #[trigger] final(mir).local_decls@[l] == decls[l]
            &&& forall|k: int|
                0 <= k < c.len() ==> split_as(
                    final(tcx),
                    c[k].1,
                    c[k].3,
                    decls[c[k].0 as int].ty,
                    (#[trigger] final(mir).local_decls@[decls.len() + k]).ty,
                )
            &&& r.model() == candidates_map(c, decls.len())
        }),
{
    let ghost tcx0 = *tcx;
    let ghost decls0 = mir.local_decls@;
    let ghost nm = nm_model(split_map.entries@);
    let ghost items = hir.items@;
    let ghost n0 = decls0.len();
    let mut decl_map = LocalMap::new();
    let n = mir.local_decls.len();
    for local in 0..n
        invariant
            n == n0,
            n0 == decls0.len(),
            tcx0 == *old(tcx),
            decls0 == old(mir).local_decls@,
            nm == nm_model(split_map.entries@),
            items == hir.items@,
            tcx0.wf(),
            tcx.wf(),
            tcx.extends(&tcx0),
            forall|i: int| 0 <= i < n0 ==> tcx0.has(#[trigger] decls0[i].ty),
            node_map_typed(&tcx0, nm, items),
            mir.basic_blocks == old(mir).basic_blocks,
            mir.arg_count == old(mir).arg_count,
            mir.return_ty == old(mir).return_ty,
            ({
                let c = decl_candidates(&tcx0, nm, items, decls0, local as nat);
                &&& mir.local_decls@.len() == n0 + c.len()
                &&& forall|l: int| 0 <= l < n0 ==> #[trigger] mir.local_decls@[l] == decls0[l]
                &&& forall|k: int|
                    0 <= k < c.len() ==> split_as(
                        tcx,
                        c[k].1,
                        c[k].3,
                        decls0[c[k].0 as int].ty,
                        (#[trigger] mir.local_decls@[n0 + k]).ty,
                    )
                &&& decl_map.model() == candidates_map(c, n0)
            }),
    {
        let decl_ty = mir.local_decls[local].ty;
        proof {
            crate::ty::lemma_extends_keeps(&tcx0, tcx, decl_ty);
        }
        let occ = tcx.walk(decl_ty);
        let ghost c_start = decl_candidates(&tcx0, nm, items, decls0, local as nat);
        let ghost occ_spec = walk(&tcx0, decl_ty);
        proof {
            lemma_walk_stable(&tcx0, tcx, decl_ty);
        }
        for oi in 0..occ.len()
            invariant
                n0 == decls0.len(),
                local < n0,
                decl_ty == decls0[local as int].ty,
                occ@ == occ_spec,
                occ_spec == walk(&tcx0, decl_ty),
                forall|i: int| 0 <= i < occ@.len() ==> tcx0.has(#[trigger] occ@[i]),
                nm == nm_model(split_map.entries@),
                items == hir.items@,
                tcx0.wf(),
                tcx.wf(),
                tcx.extends(&tcx0),
                tcx0.has(decl_ty),
                node_map_typed(&tcx0, nm, items),
                mir.basic_blocks == old(mir).basic_blocks,
                mir.arg_count == old(mir).arg_count,
                mir.return_ty == old(mir).return_ty,
                ({
                    let c = c_start + occurrence_candidates(&tcx0, nm, items, local, decl_ty, occ_spec.take(oi as int));
                    &&& mir.local_decls@.len() == n0 + c.len()
                    &&& forall|l: int| 0 <= l < n0 ==> #[trigger] mir.local_decls@[l] == decls0[l]
                    &&& forall|k: int|
                        0 <= k < c.len() ==> split_as(
                            tcx,
                            c[k].1,
                            c[k].3,
                            decls0[c[k].0 as int].ty,
                            (#[trigger] mir.local_decls@[n0 + k]).ty,
                        )
                    &&& decl_map.model() == candidates_map(c, n0)
                }),
        {
            let nty = occ[oi];
            let ghost c_occ = c_start + occurrence_candidates(&tcx0, nm, items, local, decl_ty, occ_spec.take(oi as int));
            proof {
                assert(occ_spec.take(oi + 1).drop_last() =~= occ_spec.take(oi as int));
                assert(occ_spec.take(oi + 1).last() == nty);
                crate::ty::lemma_extends_keeps(&tcx0, tcx, nty);
            }
            match tcx.kind_of(nty) {
                TyKind::Adt(adt, _) => {
                    match hir.as_local_node_id(adt) {
                        None => {
                            proof {
                                assert(c_start + occurrence_candidates(&tcx0, nm, items, local, decl_ty, occ_spec.take(oi + 1)) =~= c_occ);
                            }
                        },
                        Some(node) => {
                            match split_map.get(node) {
                                Some(child_ids) => {
                                    for ci in 0..child_ids.len()
                                        invariant
                                            n0 == decls0.len(),
                                            local < n0,
                                            decl_ty == decls0[local as int].ty,
                                            nm == nm_model(split_map.entries@),
                                            crate::hir::def_node(items, adt) == Some(node),
                                            nm_get(nm, node) == Some(child_ids@),
                                            items == hir.items@,
                                            tcx0.wf(),
                                            tcx.wf(),
                                            tcx.extends(&tcx0),
                                            tcx0.has(decl_ty),
                                            node_map_typed(&tcx0, nm, items),
                                            mir.basic_blocks == old(mir).basic_blocks,
                                            mir.arg_count == old(mir).arg_count,
                                            mir.return_ty == old(mir).return_ty,
                                            ({
                                                let c = c_occ + child_candidates(&tcx0, items, local, decl_ty, adt, child_ids@.take(ci as int));
                                                &&& mir.local_decls@.len() == n0 + c.len()
                                                &&& forall|l: int| 0 <= l < n0 ==> #[trigger] mir.local_decls@[l] == decls0[l]
                                                &&& forall|k: int|
                                                    0 <= k < c.len() ==> split_as(
                                                        tcx,
                                                        c[k].1,
                                                        c[k].3,
                                                        decls0[c[k].0 as int].ty,
                                                        (#[trigger] mir.local_decls@[n0 + k]).ty,
                                                    )
                                                &&& decl_map.model() == candidates_map(c, n0)
                                            }),
                                    {
                                        let child_id = child_ids[ci];
                                        let ghost c_prev = c_occ + child_candidates(&tcx0, items, local, decl_ty, adt, child_ids@.take(ci as int));
                                        proof {
                                            assert(child_ids@.take(ci + 1).drop_last() =~= child_ids@.take(ci as int));
                                            assert(child_ids@.take(ci + 1).last() == child_id);
                                            lemma_node_map_member(&tcx0, nm, items, node, ci as int);
                                        }
                                        let ty = hir.item_type(child_id).unwrap();
                                        proof {
                                            crate::ty::lemma_extends_keeps(&tcx0, tcx, ty);
                                        }
                                        match tcx.kind_of(ty) {
                                            TyKind::Adt(new_adt, _) => {
                                                let mut type_modifier = SplitTypeModifier::new(adt, new_adt);
                                                let ghost tcx_before = *tcx;
                                                proof {
                                                    crate::walkmut::lemma_splits_stable(&tcx0, tcx, adt, decl_ty);
                                                    crate::walkmut::lemma_split_modifiable(tcx, type_modifier, decl_ty);
                                                }
                                                match type_modifier.modify(tcx, decl_ty) {
                                                    Ok(new_ty) => {
                                                        proof {
                                                            crate::walkmut::lemma_split_modified(tcx, type_modifier, decl_ty, new_ty);
                                                        }
                                                        let child_local = mir.local_decls.len();
                                                        mir.local_decls.push(LocalDecl::new_temp(new_ty));
                                                        decl_map.insert(local, ty, child_local);
                                                        proof {
                                                            let c_new = c_prev.push((local, adt, ty, new_adt));
                                                            assert(c_occ + child_candidates(&tcx0, items, local, decl_ty, adt, child_ids@.take(ci + 1)) =~= c_new);
                                                            assert(candidates_map(c_new, n0) == lm_insert(candidates_map(c_prev, n0), local, ty, child_local)) by {
                                                                assert(c_new.drop_last() =~= c_prev);
                                                            }
                                                            assert forall|k: int| 0 <= k < c_new.len() implies split_as(
                                                                tcx,
                                                                c_new[k].1,
                                                                c_new[k].3,
                                                                decls0[c_new[k].0 as int].ty,
                                                                (#[trigger] mir.local_decls@[n0 + k]).ty,
                                                            ) by {
                                                                if k < c_prev.len() {
                                                                    assert(c_new[k] == c_prev[k]);
                                                                    crate::walkmut::lemma_split_as_stable(
                                                                        &tcx_before,
                                                                        tcx,
                                                                        c_prev[k].1,
                                                                        c_prev[k].3,
                                                                        decls0[c_prev[k].0 as int].ty,
                                                                        mir.local_decls@[n0 + k].ty,
                                                                    );
                                                                }
                                                            }
                                                        }
                                                    },
                                                    Err(()) => {
                                                        proof {
                                                            assert(c_occ + child_candidates(&tcx0, items, local, decl_ty, adt, child_ids@.take(ci + 1)) =~= c_prev);
                                                            assert forall|k: int| 0 <= k < c_prev.len() implies split_as(
                                                                tcx,
                                                                c_prev[k].1,
                                                                c_prev[k].3,
                                                                decls0[c_prev[k].0 as int].ty,
                                                                (#[trigger] mir.local_decls@[n0 + k]).ty,
                                                            ) by {
                                                                crate::walkmut::lemma_split_as_stable(
                                                                    &tcx_before,
                                                                    tcx,
                                                                    c_prev[k].1,
                                                                    c_prev[k].3,
                                                                    decls0[c_prev[k].0 as int].ty,
                                                                    mir.local_decls@[n0 + k].ty,
                                                                );
                                                            }
                                                        }
                                                    },
                                                }
                                            },
                                            _ => {
                                                proof {
                                                    assert(c_occ + child_candidates(&tcx0, items, local, decl_ty, adt, child_ids@.take(ci + 1)) =~= c_prev);
                                                }
                                            },
                                        }
                                    }
                                    proof {
                                        assert(child_ids@.take(child_ids@.len() as int) =~= child_ids@);
                                        assert(c_start + occurrence_candidates(&tcx0, nm, items, local, decl_ty, occ_spec.take(oi + 1))
                                            =~= c_occ + child_candidates(&tcx0, items, local, decl_ty, adt, child_ids@));
                                    }
                                },
                                None => {
                                    proof {
                                        assert(c_start + occurrence_candidates(&tcx0, nm, items, local, decl_ty, occ_spec.take(oi + 1)) =~= c_occ);
                                    }
                                },
                            }
                        },
                    }
                },
                _ => {
                    proof {
                        assert(c_start + occurrence_candidates(&tcx0, nm, items, local, decl_ty, occ_spec.take(oi + 1)) =~= c_occ);
                    }
                },
            }
        }
        proof {
            assert(occ_spec.take(occ_spec.len() as int) =~= occ_spec);
            assert(decl_candidates(&tcx0, nm, items, decls0, (local + 1) as nat) =~= c_start + occurrence_candidates(
                &tcx0,
                nm,
                items,
                local,
                decl_ty,
                occ_spec,
            ));
        }
    }
    decl_map
}

proof fn lemma_node_map_member(tcx: &TyCtxt, nm: Seq<(u64, Seq<u64>)>, items: Seq<crate::hir::HirItem>, adt: u64, j: int)
    requires
        node_map_typed(tcx, nm, items),
        nm_get(nm, adt) is Some,
        0 <= j < nm_get(nm, adt)->0.len(),
    ensures
        node_type(items, nm_get(nm, adt)->0[j]) is Some,
        tcx.has(node_type(items, nm_get(nm, adt)->0[j])->0),
{
    lemma_node_position(nm, adt);
    let p = node_position(nm, adt);
    assert(nm_get(nm, adt)->0[j] == nm[p].1[j]);
}

/// Every child in node map `nm` is the node of an item.
pub open spec fn nm_children_found(nm: Seq<(u64, Seq<u64>)>, items: Seq<crate::hir::HirItem>) -> bool {
    forall|k: int, j: int|
        0 <= k < nm.len() && 0 <= j < nm[k].1.len() ==> node_type(items, #[trigger] nm[k].1[j]) is Some
}

proof fn lemma_nm_push_found(m: Seq<(u64, Seq<u64>)>, items: Seq<crate::hir::HirItem>, k: u64, v: u64)
    requires
        nm_children_found(m, items),
        node_type(items, v) is Some,
    ensures
        nm_children_found(nm_push(m, k, v), items),
{
    lemma_node_position(m, k);
    let p = node_position(m, k);
    let m2 = nm_push(m, k, v);
    assert forall|a: int, j: int| 0 <= a < m2.len() && 0 <= j < m2[a].1.len() implies node_type(
        items,
        #[trigger] m2[a].1[j],
    ) is Some by {
        if p < 0 {
            if a < m.len() {
                assert(m2[a] == m[a]);
            } else {
                assert(m2[a].1 == seq![v]);
            }
        } else if a == p {
            if j < m[p].1.len() {
                assert(m2[a].1[j] == m[p].1[j]);
            } else {
                assert(m2[a].1[j] == v);
            }
        } else {
            assert(m2[a] == m[a]);
        }
    }
}

proof fn lemma_push_children_found(
    m: Seq<(u64, Seq<u64>)>,
    items: Seq<crate::hir::HirItem>,
    k: u64,
    children: Seq<(u64, Ty)>,
)
    requires
        nm_children_found(m, items),
        forall|i: int| 0 <= i < children.len() ==> node_type(items, (#[trigger] children[i]).0) is Some,
    ensures
        nm_children_found(push_children(m, k, children), items),
    decreases children.len(),
{
    if children.len() > 0 {
        assert forall|i: int| 0 <= i < children.len() - 1 implies node_type(
            items,
            (#[trigger] children.drop_last()[i]).0,
        ) is Some by {
            assert(children.drop_last()[i] == children[i]);
        }
        lemma_push_children_found(m, items, k, children.drop_last());
        assert(node_type(items, children[children.len() - 1].0) is Some);
        lemma_nm_push_found(push_children(m, k, children.drop_last()), items, k, children.last().0);
    }
}

proof fn lemma_push_child_names_found(
    m: Seq<(u64, Seq<u64>)>,
    items: Seq<crate::hir::HirItem>,
    k: u64,
    names: Seq<String>,
)
    requires
        nm_children_found(m, items),
    ensures
        nm_children_found(push_child_names(m, items, k, names), items),
    decreases names.len(),
{
    if names.len() > 0 {
        lemma_push_child_names_found(m, items, k, names.drop_last());
        crate::hir::lemma_matching_items_found(items, names.last()@);
        lemma_push_children_found(
            push_child_names(m, items, k, names.drop_last()),
            items,
            k,
            matching_items(items, names.last()@),
        );
    }
}

proof fn lemma_add_struct_items_found(
    maps: (Seq<(u64, Seq<u64>)>, Seq<(Ty, usize)>),
    items: Seq<crate::hir::HirItem>,
    st: SplitStruct,
    i: usize,
    nodes: Seq<(u64, Ty)>,
)
    requires
        nm_children_found(maps.0, items),
    ensures
        nm_children_found(add_struct_items(maps, items, st, i, nodes).0, items),
    decreases nodes.len(),
{
    if nodes.len() > 0 {
        lemma_add_struct_items_found(maps, items, st, i, nodes.drop_last());
        let prev = add_struct_items(maps, items, st, i, nodes.drop_last());
        lemma_push_child_names_found(prev.0, items, nodes.last().0, st.child_names@);
    }
}

proof fn lemma_split_ty_maps_found(items: Seq<crate::hir::HirItem>, structs: Seq<SplitStruct>)
    ensures
        nm_children_found(split_ty_maps(items, structs).0, items),
    decreases structs.len(),
{
    if structs.len() > 0 {
        let i = structs.len() - 1;
        lemma_split_ty_maps_found(items, structs.drop_last());
        lemma_add_struct_items_found(
            split_ty_maps(items, structs.drop_last()),
            items,
            structs[i],
            i as usize,
            matching_items(items, structs[i].name@),
        );
    }
}

/// The node map made from the items of a crate whose types are all in the
/// context has children with types of the context: what `make_decl_map`
/// needs of it.
pub proof fn lemma_node_map_typed(tcx: &TyCtxt, items: Seq<crate::hir::HirItem>, structs: Seq<SplitStruct>)
    requires
        forall|i: int| 0 <= i < items.len() ==> tcx.has(#[trigger] items[i].ty),
    ensures
        node_map_typed(tcx, split_ty_maps(items, structs).0, items),
{
    let nm = split_ty_maps(items, structs).0;
    lemma_split_ty_maps_found(items, structs);
    assert forall|k: int, j: int| 0 <= k < nm.len() && 0 <= j < nm[k].1.len() implies node_type(
        items,
        #[trigger] nm[k].1[j],
    ) is Some && tcx.has(node_type(items, nm[k].1[j])->0) by {
        crate::hir::lemma_node_type_in(tcx, items, nm[k].1[j]);
    }
}

proof fn lemma_child_candidates_typed(
    tcx: &TyCtxt,
    items: Seq<crate::hir::HirItem>,
    l: Local,
    t: Ty,
    adt: AdtId,
    ids: Seq<u64>,
)
    requires
        forall|i: int| 0 <= i < ids.len() ==> tcx.has(node_type(items, #[trigger] ids[i])->0),
    ensures
        forall|k: int|
            0 <= k < child_candidates(tcx, items, l, t, adt, ids).len() ==> tcx.has(
                (#[trigger] child_candidates(tcx, items, l, t, adt, ids)[k]).2,
            ),
    decreases ids.len(),
{
    if ids.len() > 0 {
        assert forall|i: int| 0 <= i < ids.len() - 1 implies tcx.has(
            node_type(items, #[trigger] ids.drop_last()[i])->0,
        ) by {
            assert(ids.drop_last()[i] == ids[i]);
        }
        lemma_child_candidates_typed(tcx, items, l, t, adt, ids.drop_last());
        assert(tcx.has(node_type(items, ids[ids.len() - 1])->0));
        let prev = child_candidates(tcx, items, l, t, adt, ids.drop_last());
        let all = child_candidates(tcx, items, l, t, adt, ids);
        assert forall|k: int| 0 <= k < all.len() implies tcx.has((#[trigger] all[k]).2) by {
            if k < prev.len() {
                assert(all[k] == prev[k]);
            } else {
                assert(all[k].2 == node_type(items, ids.last())->0);
            }
        }
    }
}

proof fn lemma_occurrence_candidates_typed(
    tcx: &TyCtxt,
    nm: Seq<(u64, Seq<u64>)>,
    items: Seq<crate::hir::HirItem>,
    l: Local,
    t: Ty,
    occ: Seq<Ty>,
)
    requires
        node_map_typed(tcx, nm, items),
    ensures
        forall|k: int|
            0 <= k < occurrence_candidates(tcx, nm, items, l, t, occ).len() ==> tcx.has(
                (#[trigger] occurrence_candidates(tcx, nm, items, l, t, occ)[k]).2,
            ),
    decreases occ.len(),
{
    if occ.len() > 0 {
        lemma_occurrence_candidates_typed(tcx, nm, items, l, t, occ.drop_last());
        let prev = occurrence_candidates(tcx, nm, items, l, t, occ.drop_last());
        if let TyKind::Adt(adt, _) = tcx.kind(occ.last()) {
            if let Some(node) = crate::hir::def_node(items, adt) {
            if let Some(ids) = nm_get(nm, node) {
                assert forall|i: int| 0 <= i < ids.len() implies tcx.has(node_type(items, #[trigger] ids[i])->0) by {
                    lemma_node_map_member(tcx, nm, items, node, i);
                }
                lemma_child_candidates_typed(tcx, items, l, t, adt, ids);
                let cc = child_candidates(tcx, items, l, t, adt, ids);
                let all = occurrence_candidates(tcx, nm, items, l, t, occ);
                assert forall|k: int| 0 <= k < all.len() implies tcx.has((#[trigger] all[k]).2) by {
                    if k < prev.len() {
                        assert(all[k] == prev[k]);
                    } else {
                        assert(all[k] == cc[k - prev.len()]);
                    }
                }
            }
            }
        }
    }
}

/// Every child local that `make_decl_map` plans has a type of the context.
proof fn lemma_decl_candidates_typed(
    tcx: &TyCtxt,
    nm: Seq<(u64, Seq<u64>)>,
    items: Seq<crate::hir::HirItem>,
    decls: Seq<LocalDecl>,
    n: nat,
)
    requires
        node_map_typed(tcx, nm, items),
    ensures
        forall|k: int|
            0 <= k < decl_candidates(tcx, nm, items, decls, n).len() ==> tcx.has(
                (#[trigger] decl_candidates(tcx, nm, items, decls, n)[k]).2,
            ),
    decreases n,
{
    if n > 0 {
        lemma_decl_candidates_typed(tcx, nm, items, decls, (n - 1) as nat);
        let l = (n - 1) as Local;
        let t = decls[n - 1].ty;
        lemma_occurrence_candidates_typed(tcx, nm, items, l, t, walk(tcx, t));
        let prev = decl_candidates(tcx, nm, items, decls, (n - 1) as nat);
        let oc = occurrence_candidates(tcx, nm, items, l, t, walk(tcx, t));
        let all = decl_candidates(tcx, nm, items, decls, n);
        assert forall|k: int| 0 <= k < all.len() implies tcx.has((#[trigger] all[k]).2) by {
            if k < prev.len() {
                assert(all[k] == prev[k]);
            } else {
                assert(all[k] == oc[k - prev.len()]);
            }
        }
    }
}

/// The children of the decl map of candidates `c` numbered from `first`
/// are locals `first..first + c.len()` with the candidates' types.
proof fn lemma_candidates_map_children(tcx: &TyCtxt, c: Seq<Candidate>, first: nat)
    requires
        first + c.len() <= usize::MAX,
        forall|k: int| 0 <= k < c.len() ==> tcx.has((#[trigger] c[k]).2),
    ensures
        ({
            let lm = candidates_map(c, first);
            forall|k: int, j: int|
                0 <= k < lm.len() && 0 <= j < lm[k].1.len() ==> tcx.has((#[trigger] lm[k].1[j]).0) && first
                    <= lm[k].1[j].1 < first + c.len()
        }),
    decreases c.len(),
{
    if c.len() > 0 {
        let n = c.len() - 1;
        assert forall|k: int| 0 <= k < n implies tcx.has((#[trigger] c.drop_last()[k]).2) by {
            assert(c.drop_last()[k] == c[k]);
        }
        lemma_candidates_map_children(tcx, c.drop_last(), first);
        let m = candidates_map(c.drop_last(), first);
        let (local, ty, child) = (c[n].0, c[n].2, (first + n) as Local);
        assert(tcx.has(ty));
        let m2 = lm_insert(m, local, ty, child);
        crate::local_map::lemma_entry_position(m, local);
        let p = crate::local_map::entry_position(m, local);
        assert forall|a: int, j: int| 0 <= a < m2.len() && 0 <= j < m2[a].1.len() implies tcx.has(
            (#[trigger] m2[a].1[j]).0,
        ) && first <= m2[a].1[j].1 < first + c.len() by {
            if p < 0 {
                if a < m.len() {
                    assert(m2[a] == m[a]);
                } else {
                    assert(m2[a].1 == seq![(ty, child)]);
                }
            } else if a == p {
                let cs = m[p].1;
                crate::local_map::lemma_child_position(cs, ty);
                let q = crate::local_map::child_position(cs, ty);
                if q < 0 {
                    if j < cs.len() {
                        assert(m2[a].1[j] == cs[j]);
                    } else {
                        assert(m2[a].1[j] == (ty, child));
                    }
                } else if j == q {
                    assert(m2[a].1[j] == (ty, child));
                } else {
                    assert(m2[a].1[j] == cs[j]);
                }
            } else {
                assert(m2[a] == m[a]);
            }
        }
    }
}

/// What `make_decl_map` makes fits the argument splitter: the children of
/// the decl map are the new locals, after the old ones, with types of the
/// context.
pub proof fn lemma_decl_map_children(
    tcx: &TyCtxt,
    nm: Seq<(u64, Seq<u64>)>,
    items: Seq<crate::hir::HirItem>,
    decls: Seq<LocalDecl>,
)
    requires
        node_map_typed(tcx, nm, items),
        decls.len() + decl_candidates(tcx, nm, items, decls, decls.len()).len() <= usize::MAX,
    ensures
        ({
            let c = decl_candidates(tcx, nm, items, decls, decls.len());
            let lm = candidates_map(c, decls.len());
            forall|k: int, j: int|
                0 <= k < lm.len() && 0 <= j < lm[k].1.len() ==> tcx.has((#[trigger] lm[k].1[j]).0)
                    && decls.len() <= lm[k].1[j].1 < decls.len() + c.len()
        }),
{
    lemma_decl_candidates_typed(tcx, nm, items, decls, decls.len());
    lemma_candidates_map_children(tcx, decl_candidates(tcx, nm, items, decls, decls.len()), decls.len());
}

/// The walk of a type does not change as the context grows.
pub proof fn lemma_walk_stable(tcx1: &TyCtxt, tcx2: &TyCtxt, t: Ty)
    requires
        tcx1.wf(),
        tcx2.extends(tcx1),
        tcx1.has(t),
    ensures
        walk(tcx2, t) == walk(tcx1, t),
        forall|i: int| 0 <= i < walk(tcx1, t).len() ==> tcx1.has(#[trigger] walk(tcx1, t)[i]),
    decreases t.id, 1nat, 0nat,
{
    assert(tcx2.kinds@[t.id as int] == tcx1.kinds@[t.id as int]);
    assert(crate::ty::kind_refs_below(tcx1.kinds@[t.id as int], t.id as nat, tcx1.lists@));
    let ch = crate::ty::children(tcx1, t);
    match tcx1.kind(t) {
        TyKind::Adt(_, l) => {
            assert(tcx2.lists@[l.id as int]@ == tcx1.lists@[l.id as int]@);
        },
        TyKind::Tuple(l, _) => {
            assert(tcx2.lists@[l.id as int]@ == tcx1.lists@[l.id as int]@);
        },
        TyKind::Other(_, _, l) => {
            assert(tcx2.lists@[l.id as int]@ == tcx1.lists@[l.id as int]@);
        },
        _ => {},
    }
    assert(crate::ty::children(tcx2, t) == ch);
    assert forall|i: int| 0 <= i < ch.len() implies (#[trigger] ch[i]).id < t.id && tcx1.has(ch[i]) by {
        match tcx1.kind(t) {
            TyKind::Adt(_, l) => {
                assert(tcx1.has_all(tcx1.lists@[l.id as int]@));
            },
            TyKind::Tuple(l, _) => {
                assert(tcx1.has_all(tcx1.lists@[l.id as int]@));
            },
            TyKind::Other(_, _, l) => {
                assert(tcx1.has_all(tcx1.lists@[l.id as int]@));
            },
            _ => {},
        }
    }
    lemma_walk_list_stable(tcx1, tcx2, ch, t.id);
}

proof fn lemma_walk_list_stable(tcx1: &TyCtxt, tcx2: &TyCtxt, ts: Seq<Ty>, bound: usize)
    requires
        tcx1.wf(),
        tcx2.extends(tcx1),
        forall|i: int| 0 <= i < ts.len() ==> (#[trigger] ts[i]).id < bound && tcx1.has(ts[i]),
    ensures
        crate::ty::walk_list(tcx2, ts, bound) == crate::ty::walk_list(tcx1, ts, bound),
        forall|i: int|
            0 <= i < crate::ty::walk_list(tcx1, ts, bound).len() ==> tcx1.has(
                #[trigger] crate::ty::walk_list(tcx1, ts, bound)[i],
            ),
    decreases bound, 0nat, ts.len(),
{
    if ts.len() > 0 {
        lemma_walk_list_stable(tcx1, tcx2, ts.drop_last(), bound);
        lemma_walk_stable(tcx1, tcx2, ts.last());
        let a = crate::ty::walk_list(tcx1, ts.drop_last(), bound);
        let b = walk(tcx1, ts.last());
        assert forall|i: int| 0 <= i < (a + b).len() implies tcx1.has(#[trigger] (a + b)[i]) by {
            if i < a.len() {
                assert((a + b)[i] == a[i]);
            } else {
                assert((a + b)[i] == b[i - a.len()]);
            }
        }
    }
}

} // verus!
