//! For each local of the split struct's type, the locals that hold its
//! children, by the child's type.
use vstd::prelude::*;

use crate::mir::Local;
use crate::ty::Ty;

verus! {

/// The children of one local: pairs of a child's type and the local that
/// holds that child, in the order they were added.
pub struct LocalEntry {
    pub local: Local,
    pub children: Vec<(Ty, Local)>,
}

/// The children of each split local, in the order the locals were added.
pub struct LocalMap {
    pub entries: Vec<LocalEntry>,
}

/// A local map as plain values.
pub open spec fn entries_model(es: Seq<LocalEntry>) -> Seq<(Local, Seq<(Ty, Local)>)> {
    es.map_values(|e: LocalEntry| (e.local, e.children@))
}

/// The position of the entry for `local`, or `-1`.
pub open spec fn entry_position(m: Seq<(Local, Seq<(Ty, Local)>)>, local: Local) -> int
    decreases m.len(),
{
    if m.len() == 0 {
        -1
    } else if m.last().0 == local {
        m.len() - 1
    } else {
        entry_position(m.drop_last(), local)
    }
}

/// The position of the pair for type `ty`, or `-1`.
pub open spec fn child_position(cs: Seq<(Ty, Local)>, ty: Ty) -> int
    decreases cs.len(),
{
    if cs.len() == 0 {
        -1
    } else if cs.last().0 == ty {
        cs.len() - 1
    } else {
        child_position(cs.drop_last(), ty)
    }
}

/// The children of `local`, if it has an entry.
pub open spec fn lm_get(m: Seq<(Local, Seq<(Ty, Local)>)>, local: Local) -> Option<Seq<(Ty, Local)>> {
    let p = entry_position(m, local);
    if p < 0 {
        None
    } else {
        Some(m[p].1)
    }
}

/// Sets the child of `local` of type `ty` to `child`: the pair is replaced
/// where there is one, else added at the end; an entry for `local` is
/// added at the end where there is none.
pub open spec fn lm_insert(m: Seq<(Local, Seq<(Ty, Local)>)>, local: Local, ty: Ty, child: Local) -> Seq<
    (Local, Seq<(Ty, Local)>),
> {
    let p = entry_position(m, local);
    if p < 0 {
        m.push((local, seq![(ty, child)]))
    } else {
        let cs = m[p].1;
        let q = child_position(cs, ty);
        let cs2 = if q < 0 {
            cs.push((ty, child))
        } else {
            cs.update(q, (ty, child))
        };
        m.update(p, (local, cs2))
    }
}

pub proof fn lemma_entry_position(m: Seq<(Local, Seq<(Ty, Local)>)>, local: Local)
    ensures
        -1 <= entry_position(m, local) < m.len(),
        entry_position(m, local) >= 0 ==> m[entry_position(m, local)].0 == local,
        entry_position(m, local) == -1 ==> forall|i: int| 0 <= i < m.len() ==> (#[trigger] m[i]).0 != local,
    decreases m.len(),
{
    if m.len() > 0 {
        lemma_entry_position(m.drop_last(), local);
        if m.last().0 != local {
            assert forall|i: int| 0 <= i < m.len() - 1 implies m[i] == m.drop_last()[i] by {}
        }
    }
}

pub proof fn lemma_child_position(cs: Seq<(Ty, Local)>, ty: Ty)
    ensures
        -1 <= child_position(cs, ty) < cs.len(),
        child_position(cs, ty) >= 0 ==> cs[child_position(cs, ty)].0 == ty,
        child_position(cs, ty) == -1 ==> forall|i: int| 0 <= i < cs.len() ==> (#[trigger] cs[i]).0 != ty,
    decreases cs.len(),
{
    if cs.len() > 0 {
        lemma_child_position(cs.drop_last(), ty);
        if cs.last().0 != ty {
            assert forall|i: int| 0 <= i < cs.len() - 1 implies cs[i] == cs.drop_last()[i] by {}
        }
    }
}

impl LocalMap {
    /// The map as plain values.
    pub open spec fn model(&self) -> Seq<(Local, Seq<(Ty, Local)>)> {
        entries_model(self.entries@)
    }

    /// An empty map.
    pub fn new() -> (r: LocalMap)
        ensures
            r.model() == Seq::<(Local, Seq<(Ty, Local)>)>::empty(),
    {
        LocalMap { entries: Vec::new() }
    }

    fn position(&self, local: Local) -> (r: Option<usize>)
        ensures
            match r {
                Some(p) => p < self.entries@.len() && p as int == entry_position(self.model(), local),
                None => entry_position(self.model(), local) == -1,
            },
    {
        let ghost m = self.model();
        let mut found: Option<usize> = None;
        for i in 0..self.entries.len()
            invariant
                m == self.model(),
                match found {
                    Some(k) => k < i && k as int == entry_position(m.take(i as int), local),
                    None => entry_position(m.take(i as int), local) == -1,
                },
        {
            proof {
                assert(m.take(i + 1).drop_last() =~= m.take(i as int));
            }
            if self.entries[i].local == local {
                found = Some(i);
            }
        }
        proof {
            assert(m.take(self.entries@.len() as int) =~= m);
        }
        found
    }

    /// The children of `local`, if it has an entry.
    pub fn get(&self, local: Local) -> (r: Option<&Vec<(Ty, Local)>>)
        ensures
            match r {
                Some(cs) => lm_get(self.model(), local) == Some(cs@),
                None => lm_get(self.model(), local) is None,
            },
    {
        match self.position(local) {
            Some(p) => Some(&self.entries[p].children),
            None => None,
        }
    }

    /// Sets the child of `local` of type `ty` to `child`.
    pub fn insert(&mut self, local: Local, ty: Ty, child: Local)
        ensures
            final(self).model() == lm_insert(old(self).model(), local, ty, child),
    {
        let ghost m = self.model();
        match self.position(local) {
            None => {
                let mut cs: Vec<(Ty, Local)> = Vec::new();
                cs.push((ty, child));
                self.entries.push(LocalEntry { local, children: cs });
                proof {
                    assert(self.model() =~= lm_insert(m, local, ty, child));
                }
            },
            Some(p) => {
                let ghost cs = m[p as int].1;
                let ghost old_entries = self.entries@;
                proof {
                    lemma_entry_position(m, local);
                }
                let mut e = self.entries.remove(p);
                let mut q: Option<usize> = None;
                for i in 0..e.children.len()
                    invariant
                        cs == e.children@,
                        match q {
                            Some(k) => k < i && k as int == child_position(cs.take(i as int), ty),
                            None => child_position(cs.take(i as int), ty) == -1,
                        },
                {
                    proof {
                        assert(cs.take(i + 1).drop_last() =~= cs.take(i as int));
                    }
                    if e.children[i].0 == ty {
                        q = Some(i);
                    }
                }
                proof {
                    assert(cs.take(cs.len() as int) =~= cs);
                }
                match q {
                    Some(k) => {
                        e.children.set(k, (ty, child));
                    },
                    None => {
                        e.children.push((ty, child));
                    },
                }
                let ghost e_new = e;
                self.entries.insert(p, e);
                proof {
                    assert(self.entries@ =~= old_entries.update(p as int, e_new));
                    assert(e_new.local == local);
                    assert(self.model() =~= lm_insert(m, local, ty, child));
                }
            },
        }
    }
}

} // verus!
