//! Compiled procedures, their identifiers and the cache which holds them.
use vstd::prelude::*;

use crate::code_block::{CodeBlock, Mast};

verus! {

/// Model of a procedure identifier.
#[verifier::ext_equal]
pub struct ProcId {
    pub module: Seq<char>,
    pub name: Seq<char>,
}

/// Model of a compiled procedure.
#[verifier::ext_equal]
pub struct SpecProc {
    pub id: ProcId,
    pub is_export: bool,
    pub num_locals: u16,
    pub root: Mast,
    pub callset: Seq<ProcId>,
}

/// Identifier of a procedure: the path of its module and its name there.
#[derive(Debug)]
pub struct ProcedureId {
    module: String,
    name: String,
}

impl View for ProcedureId {
    type V = ProcId;

    closed spec fn view(&self) -> ProcId {
        ProcId { module: self.module@, name: self.name@ }
    }
}

impl ProcedureId {
    /// Path of the kernel module.
    pub const KERNEL_PATH: &'static str = "#sys";

    /// Path of the module which holds the procedures of a program.
    pub const PROGRAM_PATH: &'static str = "#exec";

    /// Returns the identifier of the procedure `name` of the module at `module`.
    pub fn new(module: &str, name: &str) -> (r: ProcedureId)
        ensures
            r@ == (ProcId { module: module@, name: name@ }),
    {
        ProcedureId { module: module.to_owned(), name: name.to_owned() }
    }

    /// Returns the path of the module of the procedure.
    pub fn module(&self) -> (r: &str)
        ensures
            r@ == self@.module,
    {
        self.module.as_str()
    }

    /// Returns the name of the procedure in its module.
    pub fn name(&self) -> (r: &str)
        ensures
            r@ == self@.name,
    {
        self.name.as_str()
    }

    /// Returns true if the two identifiers name the same procedure.
    pub fn same(&self, other: &ProcedureId) -> (r: bool)
        ensures
            r == (self@ == other@),
    {
        self.module == other.module && self.name == other.name
    }
}

impl Clone for ProcedureId {
    /// Returns a copy of this identifier.
    fn clone(&self) -> (r: ProcedureId)
        ensures
            r@ == self@,
    {
        ProcedureId { module: self.module.clone(), name: self.name.clone() }
    }
}

/// Procedures which some code calls, directly or through other procedures; without repetition,
/// in the order in which they were first met.
#[derive(Debug)]
pub struct CallSet {
    ids: Vec<ProcedureId>,
}

impl View for CallSet {
    type V = Seq<ProcId>;

    closed spec fn view(&self) -> Seq<ProcId> {
        Seq::new(self.ids@.len(), |i: int| self.ids@[i]@)
    }
}

impl CallSet {
    /// No procedure is in the callset twice.
    #[verifier::type_invariant]
    spec fn inv(self) -> bool {
        self@.no_duplicates()
    }

    /// The callset `ids` with `id` added to it.
    pub open spec fn adding(ids: Seq<ProcId>, id: ProcId) -> Seq<ProcId> {
        if ids.contains(id) {
            ids
        } else {
            ids.push(id)
        }
    }

    /// The callset `ids` with the identifiers in `others` added to it.
    pub open spec fn merging(ids: Seq<ProcId>, others: Seq<ProcId>) -> Seq<ProcId>
        decreases others.len(),
    {
        if others.len() == 0 {
            ids
        } else {
            Self::adding(Self::merging(ids, others.drop_last()), others.last())
        }
    }

    /// Returns an empty callset.
    pub fn new() -> (r: CallSet)
        ensures
            r@ == Seq::<ProcId>::empty(),
    {
        let r = CallSet { ids: Vec::new() };
        assert(r@ =~= Seq::<ProcId>::empty());
        r
    }

    /// Returns the number of procedures in this callset; no two of them are the same.
    pub fn len(&self) -> (r: usize)
        ensures
            r == self@.len(),
            self@.no_duplicates(),
    {
        proof {
            use_type_invariant(self);
        }
        self.ids.len()
    }

    /// Returns the procedure at the given position.
    pub fn get(&self, index: usize) -> (r: &ProcedureId)
        requires
            index < self@.len(),
        ensures
            r@ == self@[index as int],
    {
        &self.ids[index]
    }

    /// Returns true if the procedure is in this callset.
    pub fn contains(&self, id: &ProcedureId) -> (r: bool)
        ensures
            r == self@.contains(id@),
    {
        let mut i: usize = 0;
        while i < self.ids.len()
            invariant
                i <= self.ids.len(),
                forall|j: int| 0 <= j < i ==> #[trigger] self@[j] != id@,
            decreases self.ids.len() - i,
        {
            if self.ids[i].same(id) {
                assert(self@[i as int] == id@);
                return true;
            }
            i = i + 1;
        }
        false
    }

    /// Adds the procedure to this callset.
    pub fn insert(&mut self, id: &ProcedureId)
        ensures
            final(self)@ == CallSet::adding(old(self)@, id@),
    {
        proof {
            use_type_invariant(&*self);
        }
        if !self.contains(id) {
            let mut ids: Vec<ProcedureId> = Vec::new();
            std::mem::swap(&mut ids, &mut self.ids);
            ids.push(id.clone());
            let ghost after = Seq::new(ids@.len(), |i: int| ids@[i]@);
            assert(after =~= old(self)@.push(id@));
            assert(after.no_duplicates());
            self.ids = ids;
        }
    }

    /// Adds the procedures of the other callset to this one.
    pub fn append(&mut self, other: &CallSet)
        ensures
            final(self)@ == CallSet::merging(old(self)@, other@),
    {
        let mut i: usize = 0;
        assert(other@.take(0) =~= Seq::<ProcId>::empty());
        while i < other.len()
            invariant
                i <= other@.len(),
                self@ == CallSet::merging(old(self)@, other@.take(i as int)),
            decreases other@.len() - i,
        {
            self.insert(other.get(i));
            assert(other@.take(i + 1).drop_last() =~= other@.take(i as int));
            i = i + 1;
        }
        assert(other@.take(i as int) =~= other@);
    }
}

impl Clone for CallSet {
    /// Returns a copy of this callset.
    fn clone(&self) -> (r: CallSet)
        ensures
            r@ == self@,
    {
        proof {
            use_type_invariant(self);
        }
        let mut ids: Vec<ProcedureId> = Vec::new();
        let mut i: usize = 0;
        while i < self.ids.len()
            invariant
                i <= self.ids.len(),
                ids.len() == i,
                forall|j: int| 0 <= j < i ==> #[trigger] ids@[j]@ == self.ids@[j]@,
            decreases self.ids.len() - i,
        {
            ids.push(self.ids[i].clone());
            i = i + 1;
        }
        assert(Seq::new(ids@.len(), |i: int| ids@[i]@) =~= self@);
        CallSet { ids }
    }
}

/// A compiled procedure.
#[derive(Debug)]
pub struct Procedure {
    id: ProcedureId,
    is_export: bool,
    num_locals: u16,
    code_root: CodeBlock,
    callset: CallSet,
}

impl View for Procedure {
    type V = SpecProc;

    closed spec fn view(&self) -> SpecProc {
        SpecProc {
            id: self.id@,
            is_export: self.is_export,
            num_locals: self.num_locals,
            root: self.code_root@,
            callset: self.callset@,
        }
    }
}

impl Procedure {
    /// The models of compiled procedures.
    pub open spec fn models(procs: Seq<Procedure>) -> Seq<SpecProc> {
        Seq::new(procs.len(), |i: int| procs[i]@)
    }

    /// Returns a compiled procedure.
    pub fn new(
        id: ProcedureId,
        is_export: bool,
        num_locals: u16,
        code_root: CodeBlock,
        callset: CallSet,
    ) -> (r: Procedure)
        ensures
            r@ == (SpecProc {
                id: id@,
                is_export,
                num_locals,
                root: code_root@,
                callset: callset@,
            }),
    {
        Procedure { id, is_export, num_locals, code_root, callset }
    }

    /// Returns the identifier of this procedure.
    pub fn id(&self) -> (r: &ProcedureId)
        ensures
            r@ == self@.id,
    {
        &self.id
    }

    /// Returns true if other modules may use this procedure.
    pub fn is_export(&self) -> (r: bool)
        ensures
            r == self@.is_export,
    {
        self.is_export
    }

    /// Returns the number of memory cells which this procedure reserves for itself.
    pub fn num_locals(&self) -> (r: u16)
        ensures
            r == self@.num_locals,
    {
        self.num_locals
    }

    /// Returns the code of this procedure.
    pub fn code_root(&self) -> (r: &CodeBlock)
        ensures
            r@ == self@.root,
    {
        &self.code_root
    }

    /// Returns the procedures which this procedure calls.
    pub fn callset(&self) -> (r: &CallSet)
        ensures
            r@ == self@.callset,
    {
        &self.callset
    }
}

impl Clone for Procedure {
    /// Returns a copy of this procedure.
    fn clone(&self) -> (r: Procedure)
        ensures
            r@ == self@,
    {
        Procedure {
            id: self.id.clone(),
            is_export: self.is_export,
            num_locals: self.num_locals,
            code_root: self.code_root.clone(),
            callset: self.callset.clone(),
        }
    }
}

/// Compiled procedures by their identifiers.
pub struct ProcedureCache {
    procs: Vec<Procedure>,
}

impl ProcedureCache {
    /// No two procedures in the cache have the same identifier.
    #[verifier::type_invariant]
    spec fn inv(self) -> bool {
        forall|i: int, j: int|
            0 <= i < j < self.procs@.len() ==> #[trigger] self.procs@[i]@.id
                != #[trigger] self.procs@[j]@.id
    }

    /// The map in which the last of several procedures with one identifier counts.
    pub open spec fn map_of(procs: Seq<SpecProc>) -> Map<ProcId, SpecProc>
        decreases procs.len(),
    {
        if procs.len() == 0 {
            Map::empty()
        } else {
            Self::map_of(procs.drop_last()).insert(procs.last().id, procs.last())
        }
    }
}

impl View for ProcedureCache {
    type V = Map<ProcId, SpecProc>;

    closed spec fn view(&self) -> Map<ProcId, SpecProc> {
        ProcedureCache::map_of(Procedure::models(self.procs@))
    }
}

/// A procedure is found in the map of a sequence of procedures exactly if it is the last one there
/// with its identifier.
pub(crate) proof fn lemma_map_of(procs: Seq<SpecProc>)
    ensures
        ProcedureCache::map_of(procs).dom().finite(),
        forall|id: ProcId| #[trigger]
            ProcedureCache::map_of(procs).contains_key(id) <==> exists|i: int|
                0 <= i < procs.len() && (#[trigger] procs[i]).id == id,
        forall|i: int|
            0 <= i < procs.len() && (forall|j: int|
                i < j < procs.len() ==> (#[trigger] procs[j]).id != procs[i].id)
                ==> ProcedureCache::map_of(procs)[(#[trigger] procs[i]).id] == procs[i],
    decreases procs.len(),
{
    let map = ProcedureCache::map_of(procs);
    if procs.len() > 0 {
        let rest = procs.drop_last();
        lemma_map_of(rest);
        assert forall|id: ProcId| #[trigger] map.contains_key(id) <==> exists|i: int|
            0 <= i < procs.len() && (#[trigger] procs[i]).id == id by {
            if map.contains_key(id) {
                if id == procs.last().id {
                    assert(procs[procs.len() - 1].id == id);
                } else {
                    assert(ProcedureCache::map_of(rest).contains_key(id));
                    let i = choose|i: int| 0 <= i < rest.len() && (#[trigger] rest[i]).id == id;
                    assert(procs[i].id == id);
                }
            }
            if exists|i: int| 0 <= i < procs.len() && (#[trigger] procs[i]).id == id {
                let i = choose|i: int| 0 <= i < procs.len() && (#[trigger] procs[i]).id == id;
                if i < rest.len() {
                    assert(rest[i].id == id);
                    assert(ProcedureCache::map_of(rest).contains_key(id));
                }
            }
        }
        assert forall|i: int|
            0 <= i < procs.len() && (forall|j: int|
                i < j < procs.len() ==> (#[trigger] procs[j]).id != procs[i].id) implies map[(
        #[trigger] procs[i]).id] == procs[i] by {
            if i < rest.len() {
                assert(rest[i] == procs[i]);
                assert forall|j: int| i < j < rest.len() implies (#[trigger] rest[j]).id
                    != rest[i].id by {
                    assert(rest[j] == procs[j]);
                }
                assert(procs[procs.len() - 1].id != procs[i].id);
            }
        }
    }
}

/// The map of procedures with distinct identifiers has as many entries as there are procedures.
proof fn lemma_map_of_len(procs: Seq<SpecProc>)
    requires
        forall|i: int, j: int|
            0 <= i < j < procs.len() ==> (#[trigger] procs[i]).id != (#[trigger] procs[j]).id,
    ensures
        ProcedureCache::map_of(procs).len() == procs.len(),
    decreases procs.len(),
{
    if procs.len() > 0 {
        let rest = procs.drop_last();
        assert forall|i: int, j: int| 0 <= i < j < rest.len() implies (#[trigger] rest[i]).id != (
        #[trigger] rest[j]).id by {
            assert(procs[i].id != procs[j].id);
        }
        lemma_map_of_len(rest);
        lemma_map_of(rest);
        let last = procs.last();
        assert(!ProcedureCache::map_of(rest).contains_key(last.id)) by {
            if ProcedureCache::map_of(rest).contains_key(last.id) {
                let i = choose|i: int| 0 <= i < rest.len() && (#[trigger] rest[i]).id == last.id;
                assert(procs[i].id != procs[procs.len() - 1].id);
            }
        }
    }
}

impl ProcedureCache {
    /// Returns an empty cache.
    pub fn new() -> (r: ProcedureCache)
        ensures
            r@ == Map::<ProcId, SpecProc>::empty(),
    {
        ProcedureCache { procs: Vec::new() }
    }

    /// Returns the number of procedures in this cache.
    pub fn len(&self) -> (r: usize)
        ensures
            r == self@.len(),
    {
        proof {
            use_type_invariant(self);
            lemma_map_of_len(Procedure::models(self.procs@));
        }
        self.procs.len()
    }

    /// Returns the procedures of this cache; each is there under its identifier.
    pub fn values(&self) -> (r: &Vec<Procedure>)
        ensures
            r@.len() == self@.len(),
            forall|i: int|
                0 <= i < r@.len() ==> self@.contains_key((#[trigger] r@[i])@.id) && self@[r@[i]@.id]
                    == r@[i]@,
            forall|id: ProcId| #[trigger]
                self@.contains_key(id) ==> exists|i: int| 0 <= i < r@.len() && (#[trigger] r@[i])@.id == id,
    {
        proof {
            use_type_invariant(self);
            let models = Procedure::models(self.procs@);
            lemma_map_of_len(models);
            lemma_map_of(models);
            assert forall|i: int| 0 <= i < self.procs@.len() implies self@.contains_key(
                (#[trigger] self.procs@[i])@.id,
            ) && self@[self.procs@[i]@.id] == self.procs@[i]@ by {
                assert(models[i] == self.procs@[i]@);
            }
            assert forall|id: ProcId| #[trigger] self@.contains_key(id) implies exists|i: int|
                0 <= i < self.procs@.len() && (#[trigger] self.procs@[i])@.id == id by {
                let i = choose|i: int| 0 <= i < models.len() && (#[trigger] models[i]).id == id;
                assert(self.procs@[i]@.id == id);
            }
        }
        &self.procs
    }

    /// Returns the procedure with the given identifier.
    pub fn get(&self, id: &ProcedureId) -> (r: Option<&Procedure>)
        ensures
            r matches Some(p) ==> self@.contains_key(id@) && p@ == self@[id@] && p@.id == id@,
            r is None ==> !self@.contains_key(id@),
    {
        proof {
            use_type_invariant(self);
            lemma_map_of(Procedure::models(self.procs@));
        }
        let mut i: usize = 0;
        while i < self.procs.len()
            invariant
                i <= self.procs.len(),
                forall|j: int| 0 <= j < i ==> (#[trigger] self.procs@[j])@.id != id@,
                self.inv(),
                self@ == ProcedureCache::map_of(Procedure::models(self.procs@)),
            decreases self.procs.len() - i,
        {
            if self.procs[i].id().same(id) {
                proof {
                    let models = Procedure::models(self.procs@);
                    lemma_map_of(models);
                    assert(models[i as int].id == id@);
                }
                return Some(&self.procs[i]);
            }
            i = i + 1;
        }
        None
    }

    /// Puts the procedure into this cache, in place of one with the same identifier.
    pub fn insert(&mut self, proc: Procedure)
        ensures
            final(self)@ == old(self)@.insert(proc@.id, proc@),
    {
        proof {
            use_type_invariant(&*self);
        }
        let mut procs: Vec<Procedure> = Vec::new();
        std::mem::swap(&mut procs, &mut self.procs);
        let ghost before = Procedure::models(procs@);
        let ghost model = proc@;
        proof {
            lemma_map_of(before);
        }
        let mut i: usize = 0;
        while i < procs.len()
            invariant_except_break
                forall|j: int| 0 <= j < i ==> (#[trigger] procs@[j])@.id != proc@.id,
            invariant
                i <= procs.len(),
            ensures
                i < procs.len() ==> procs@[i as int]@.id == proc@.id,
                i == procs.len() ==> forall|j: int|
                    0 <= j < procs.len() ==> (#[trigger] procs@[j])@.id != proc@.id,
            decreases procs.len() - i,
        {
            if procs[i].id().same(proc.id()) {
                break;
            }
            i = i + 1;
        }
        if i < procs.len() {
            procs.set(i, proc);
            proof {
                let after = Procedure::models(procs@);
                lemma_map_of(after);
                assert(after =~= before.update(i as int, model));
                lemma_replaced(before, i as int, model);
            }
        } else {
            procs.push(proc);
            proof {
                let after = Procedure::models(procs@);
                assert(after =~= before.push(model));
                assert(after.drop_last() =~= before);
            }
        }
        self.procs = procs;
    }
}

/// Replacing a procedure in a sequence with distinct identifiers replaces it in the map.
proof fn lemma_replaced(procs: Seq<SpecProc>, i: int, proc: SpecProc)
    requires
        0 <= i < procs.len(),
        procs[i].id == proc.id,
        forall|i: int, j: int|
            0 <= i < j < procs.len() ==> (#[trigger] procs[i]).id != (#[trigger] procs[j]).id,
    ensures
        ProcedureCache::map_of(procs.update(i, proc)) == ProcedureCache::map_of(procs).insert(
            proc.id,
            proc,
        ),
{
    let after = procs.update(i, proc);
    lemma_map_of(procs);
    lemma_map_of(after);
    assert forall|id: ProcId|
        ProcedureCache::map_of(after).contains_key(id) == ProcedureCache::map_of(procs).insert(
            proc.id,
            proc,
        ).contains_key(id) by {
        if ProcedureCache::map_of(after).contains_key(id) {
            let j = choose|j: int| 0 <= j < after.len() && (#[trigger] after[j]).id == id;
            assert(procs[j].id == id);
        }
        if ProcedureCache::map_of(procs).contains_key(id) {
            let j = choose|j: int| 0 <= j < procs.len() && (#[trigger] procs[j]).id == id;
            assert(after[j].id == id);
        }
        if id == proc.id {
            assert(after[i].id == id);
        }
    }
    assert forall|id: ProcId| ProcedureCache::map_of(after).contains_key(id) implies
        #[trigger] ProcedureCache::map_of(after)[id] == ProcedureCache::map_of(procs).insert(
        proc.id,
        proc,
    )[id] by {
        let j = choose|j: int| 0 <= j < after.len() && (#[trigger] after[j]).id == id;
        assert(after[j].id == procs[j].id);
        assert forall|k: int| j < k < after.len() implies (#[trigger] after[k]).id != after[j].id by {
            assert(procs[k].id != procs[j].id);
        }
        assert forall|k: int| j < k < procs.len() implies (#[trigger] procs[k]).id != procs[j].id by {
        }
        if j != i {
            assert(procs[j].id != procs[i].id);
        }
    }
    assert(ProcedureCache::map_of(after) =~= ProcedureCache::map_of(procs).insert(proc.id, proc));
}

} // verus!
