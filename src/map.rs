//! The table of compilation units, and the rules that decide what a
//! directory listing contributes to it.

use vstd::prelude::*;
use crate::bytes::{
    after_last, bytes_eq, copy_range, ends_with, find_after_last, has_suffix,
    lemma_after_last_bounds, stem, strip_extension,
};
use crate::lang::{kw_java, unit_of, ParseError, Source, SourceView};

verus! {

/// The suffix that marks a test source, excluded from every listing.
pub open spec fn test_suffix() -> Seq<u8> {
    seq![0x54u8, 0x65u8, 0x73u8, 0x74u8, 0x2Eu8, 0x6Au8, 0x61u8, 0x76u8, 0x61u8]
}

pub open spec fn is_test_name(name: Seq<u8>) -> bool {
    has_suffix(name, test_suffix())
}

/// A file is loaded unless it has an extension other than `java`; a name
/// whose only dot leads it has no extension.
pub open spec fn is_source_name(name: Seq<u8>) -> bool {
    let d = after_last(name, 0x2Eu8, name.len() as int);
    d <= 1 || name.subrange(d, name.len() as int) == kw_java()
}

/// The identifier under which a unit refers to a sibling file.
pub open spec fn sibling_id(unit: SourceView, sibling: Seq<u8>) -> Seq<u8> {
    unit.package + stem(sibling)
}

/// A unit with one implicit import per sibling file appended, in order.
pub open spec fn wired(unit: SourceView, siblings: Seq<Seq<u8>>) -> SourceView {
    SourceView {
        local_imports: unit.local_imports + siblings.map_values(|d: Seq<u8>| sibling_id(unit, d)),
        ..unit
    }
}

/// The table of units, keyed by identifier.
pub struct SourceMap {
    slots: Vec<Option<Source>>,
    model: Ghost<Map<Seq<u8>, SourceView>>,
}

impl View for SourceMap {
    type V = Map<Seq<u8>, SourceView>;

    closed spec fn view(&self) -> Map<Seq<u8>, SourceView> {
        self.model@
    }
}

impl SourceMap {
    closed spec fn key_at(&self, i: int) -> Seq<u8> {
        self.slots@[i]->0@.identifier
    }

    /// The slots agree with the model, and no identifier is held twice.
    pub closed spec fn wf(&self) -> bool {
        &&& self.model@.dom().finite()
        &&& forall|i: int|
            0 <= i < self.slots@.len() && self.slots@[i] is Some ==> self.model@.contains_key(
                #[trigger] self.key_at(i),
            ) && self.model@[self.key_at(i)] == self.slots@[i]->0@
        &&& forall|k: Seq<u8>|
            #[trigger] self.model@.contains_key(k) ==> exists|i: int|
                0 <= i < self.slots@.len() && self.slots@[i] is Some && #[trigger] self.key_at(i)
                    == k
        &&& forall|i: int, j: int|
            0 <= i < self.slots@.len() && 0 <= j < self.slots@.len() && i != j
                && self.slots@[i] is Some && self.slots@[j] is Some ==> #[trigger] self.key_at(i)
                != #[trigger] self.key_at(j)
    }

    /// A well-formed table holds finitely many units.
    pub proof fn lemma_finite(&self)
        requires
            self.wf(),
        ensures
            self@.dom().finite(),
    {
    }

    pub fn new() -> (r: SourceMap)
        ensures
            r.wf(),
            r@ == Map::<Seq<u8>, SourceView>::empty(),
    {
        SourceMap { slots: Vec::new(), model: Ghost(Map::empty()) }
    }

    fn find(&self, path: &[u8]) -> (r: Option<usize>)
        requires
            self.wf(),
        ensures
            match r {
                Some(i) => i < self.slots@.len() && self.slots@[i as int] is Some && self.key_at(
                    i as int,
                ) == path@,
                None => !self@.contains_key(path@),
            },
    {
        let mut i: usize = 0;
        while i < self.slots.len()
            invariant
                i <= self.slots@.len(),
                forall|k: int|
                    0 <= k < i && self.slots@[k] is Some ==> #[trigger] self.key_at(k) != path@,
            decreases self.slots@.len() - i,
        {
            match &self.slots[i] {
                Some(s) => {
                    if bytes_eq(s.get_path(), path) {
                        return Some(i);
                    }
                },
                None => {},
            }
            i = i + 1;
        }
        None
    }

    /// The unit with identifier `path`, if the table holds one.
    pub fn get(&self, path: &[u8]) -> (r: Option<&Source>)
        requires
            self.wf(),
        ensures
            match r {
                Some(s) => self@.contains_key(path@) && self@[path@] == s@,
                None => !self@.contains_key(path@),
            },
    {
        match self.find(path) {
            Some(i) => self.slots[i].as_ref(),
            None => None,
        }
    }

    /// Takes the unit with identifier `path` out of the table.
    pub fn remove(&mut self, path: &[u8]) -> (r: Option<Source>)
        requires
            old(self).wf(),
        ensures
            final(self).wf(),
            final(self)@ == old(self)@.remove(path@),
            match r {
                Some(s) => old(self)@.contains_key(path@) && old(self)@[path@] == s@,
                None => !old(self)@.contains_key(path@),
            },
    {
        match self.find(path) {
            Some(i) => {
                let mut slot: Option<Source> = None;
                std::mem::swap(&mut slot, &mut self.slots[i]);
                self.model = Ghost(self.model@.remove(path@));
                assert(forall|j: int| 0 <= j < self.slots@.len() && j != i ==> self.slots@[j] == old(self).slots@[j]);
                assert forall|k: Seq<u8>| #[trigger] self.model@.contains_key(k) implies exists|j: int|
                    0 <= j < self.slots@.len() && self.slots@[j] is Some && #[trigger] self.key_at(j) == k by {
                    let j = choose|j: int| 0 <= j < old(self).slots@.len() && old(self).slots@[j] is Some && #[trigger] old(self).key_at(j) == k;
                    assert(self.key_at(j) == k);
                }
                assert forall|j: int|
                    0 <= j < self.slots@.len() && self.slots@[j] is Some implies self.model@.contains_key(
                        #[trigger] self.key_at(j),
                    ) && self.model@[self.key_at(j)] == self.slots@[j]->0@ by {
                    assert(old(self).key_at(j) != old(self).key_at(i as int));
                }
                assert forall|a: int, b: int|
                    0 <= a < self.slots@.len() && 0 <= b < self.slots@.len() && a != b
                        && self.slots@[a] is Some && self.slots@[b] is Some implies #[trigger] self.key_at(a)
                        != #[trigger] self.key_at(b) by {
                    assert(old(self).key_at(a) != old(self).key_at(b));
                }
                slot
            },
            None => {
                proof {
                    assert(self.model@.remove(path@) =~= self.model@);
                }
                None
            },
        }
    }

    /// Puts `source` into the table under its identifier, replacing any unit
    /// held there.
    fn insert(&mut self, source: Source)
        requires
            old(self).wf(),
        ensures
            final(self).wf(),
            final(self)@ == old(self)@.insert(source@.identifier, source@),
    {
        let ghost v = source@;
        match self.find(source.get_path()) {
            Some(i) => {
                let mut slot: Option<Source> = Some(source);
                std::mem::swap(&mut slot, &mut self.slots[i]);
                self.model = Ghost(self.model@.insert(v.identifier, v));
                assert(forall|j: int| 0 <= j < self.slots@.len() && j != i ==> self.slots@[j] == old(self).slots@[j]);
                assert(self.key_at(i as int) == v.identifier);
                assert forall|k: Seq<u8>| #[trigger] self.model@.contains_key(k) implies exists|j: int|
                    0 <= j < self.slots@.len() && self.slots@[j] is Some && #[trigger] self.key_at(j) == k by {
                    if k != v.identifier {
                        let j = choose|j: int| 0 <= j < old(self).slots@.len() && old(self).slots@[j] is Some && #[trigger] old(self).key_at(j) == k;
                        assert(self.key_at(j) == k);
                    }
                }
                assert forall|j: int|
                    0 <= j < self.slots@.len() && self.slots@[j] is Some implies self.model@.contains_key(
                        #[trigger] self.key_at(j),
                    ) && self.model@[self.key_at(j)] == self.slots@[j]->0@ by {
                    if j != i {
                        assert(old(self).key_at(j) != old(self).key_at(i as int));
                    }
                }
                assert forall|a: int, b: int|
                    0 <= a < self.slots@.len() && 0 <= b < self.slots@.len() && a != b
                        && self.slots@[a] is Some && self.slots@[b] is Some implies #[trigger] self.key_at(a)
                        != #[trigger] self.key_at(b) by {
                    assert(old(self).key_at(a) != old(self).key_at(i as int) || a == i);
                    assert(old(self).key_at(b) != old(self).key_at(i as int) || b == i);
                }
            },
            None => {
                self.slots.push(Some(source));
                self.model = Ghost(self.model@.insert(v.identifier, v));
                let ghost n = (self.slots@.len() - 1) as int;
                assert(forall|j: int| 0 <= j < n ==> self.slots@[j] == old(self).slots@[j]);
                assert(self.key_at(n) == v.identifier);
                assert forall|k: Seq<u8>| #[trigger] self.model@.contains_key(k) implies exists|j: int|
                    0 <= j < self.slots@.len() && self.slots@[j] is Some && #[trigger] self.key_at(j) == k by {
                    if k != v.identifier {
                        let j = choose|j: int| 0 <= j < old(self).slots@.len() && old(self).slots@[j] is Some && #[trigger] old(self).key_at(j) == k;
                        assert(self.key_at(j) == k);
                    }
                }
                assert forall|j: int|
                    0 <= j < self.slots@.len() && self.slots@[j] is Some implies self.model@.contains_key(
                        #[trigger] self.key_at(j),
                    ) && self.model@[self.key_at(j)] == self.slots@[j]->0@ by {
                    if j != n {
                        assert(old(self).model@.contains_key(old(self).key_at(j)));
                    }
                }
                assert forall|a: int, b: int|
                    0 <= a < self.slots@.len() && 0 <= b < self.slots@.len() && a != b
                        && self.slots@[a] is Some && self.slots@[b] is Some implies #[trigger] self.key_at(a)
                        != #[trigger] self.key_at(b) by {
                    if a != n {
                        assert(old(self).model@.contains_key(old(self).key_at(a)));
                    }
                    if b != n {
                        assert(old(self).model@.contains_key(old(self).key_at(b)));
                    }
                }
            },
        }
    }
}

impl SourceMap {
    /// Loads the file `file_name` of a directory whose non-test entries are
    /// `deps`: its unit, with one implicit import per entry, goes into the
    /// table. A test source is passed over.
    pub fn load_file(&mut self, deps: &[Vec<u8>], file_name: &[u8], content: &[u8]) -> (r: Result<
        (),
        ParseError,
    >)
        requires
            old(self).wf(),
        ensures
            final(self).wf(),
            is_test_name(file_name@) ==> r is Ok && final(self)@ == old(self)@,
            !is_test_name(file_name@) ==> match unit_of(file_name@, content@) {
                None => r is Err && final(self)@ == old(self)@,
                Some(u) => r is Ok && final(self)@ == old(self)@.insert(
                    u.identifier,
                    wired(u, deps@.map_values(|d: Vec<u8>| d@)),
                ),
            },
    {
        let suffix: [u8; 9] = [0x54u8, 0x65u8, 0x73u8, 0x74u8, 0x2Eu8, 0x6Au8, 0x61u8, 0x76u8, 0x61u8];
        assert(suffix@ =~= test_suffix());
        if ends_with(file_name, &suffix) {
            return Ok(());
        }
        let mut source = match Source::from_bytes(file_name, content) {
            Ok(s) => s,
            Err(e) => {
                return Err(e);
            },
        };
        let ghost u = source@;
        let ghost ds = deps@.map_values(|d: Vec<u8>| d@);
        let mut k: usize = 0;
        proof {
            assert(u.local_imports + ds.take(0).map_values(|d: Seq<u8>| sibling_id(u, d)) =~= u.local_imports);
        }
        while k < deps.len()
            invariant
                k <= deps@.len(),
                ds == deps@.map_values(|d: Vec<u8>| d@),
                source@ == wired(u, ds.take(k as int)),
            decreases deps@.len() - k,
        {
            let stemmed = strip_extension(&deps[k]);
            source.insert_import(&stemmed);
            proof {
                assert(ds.take(k + 1) =~= ds.take(k as int).push(ds[k as int]));
                assert(wired(u, ds.take(k + 1)).local_imports =~= wired(u, ds.take(k as int)).local_imports.push(sibling_id(u, ds[k as int])));
            }
            k = k + 1;
        }
        proof {
            assert(ds.take(k as int) =~= ds);
        }
        self.insert(source);
        Ok(())
    }
}

/// One entry of a directory listing.
pub struct DirEntry {
    pub name: Vec<u8>,
    pub is_dir: bool,
}

impl View for DirEntry {
    type V = (Seq<u8>, bool);

    open spec fn view(&self) -> (Seq<u8>, bool) {
        (self.name@, self.is_dir)
    }
}

/// What the loader does with one entry of a directory.
#[derive(Debug)]
pub enum Step {
    Descend(Vec<u8>),
    Load(Vec<u8>),
}

pub enum StepKind {
    Descend(Seq<u8>),
    Load(Seq<u8>),
}

impl View for Step {
    type V = StepKind;

    open spec fn view(&self) -> StepKind {
        match self {
            Step::Descend(n) => StepKind::Descend(n@),
            Step::Load(n) => StepKind::Load(n@),
        }
    }
}

/// The decisions for one directory: the names its units see as siblings,
/// and the entries to descend into or load, in listing order.
pub struct DirPlan {
    pub siblings: Vec<Vec<u8>>,
    pub steps: Vec<Step>,
}

/// The names of the non-test entries, in listing order.
pub open spec fn siblings_of(es: Seq<(Seq<u8>, bool)>) -> Seq<Seq<u8>>
    decreases es.len(),
{
    if es.len() == 0 {
        Seq::empty()
    } else {
        let rest = siblings_of(es.drop_last());
        if is_test_name(es.last().0) {
            rest
        } else {
            rest.push(es.last().0)
        }
    }
}

/// One step per non-test entry that is a directory or a source file, in
/// listing order.
pub open spec fn steps_of(es: Seq<(Seq<u8>, bool)>) -> Seq<StepKind>
    decreases es.len(),
{
    if es.len() == 0 {
        Seq::empty()
    } else {
        let rest = steps_of(es.drop_last());
        let e = es.last();
        if is_test_name(e.0) {
            rest
        } else if e.1 {
            rest.push(StepKind::Descend(e.0))
        } else if is_source_name(e.0) {
            rest.push(StepKind::Load(e.0))
        } else {
            rest
        }
    }
}

/// The name a step acts on.
pub open spec fn step_name(s: StepKind) -> Seq<u8> {
    match s {
        StepKind::Descend(n) => n,
        StepKind::Load(n) => n,
    }
}

/// A test source is never a sibling, and never descended into or loaded.
pub proof fn lemma_tests_left_out(es: Seq<(Seq<u8>, bool)>)
    ensures
        forall|i: int| 0 <= i < siblings_of(es).len() ==> !is_test_name(#[trigger] siblings_of(es)[i]),
        forall|i: int| 0 <= i < steps_of(es).len() ==> !is_test_name(step_name(#[trigger] steps_of(es)[i])),
    decreases es.len(),
{
    if es.len() > 0 {
        lemma_tests_left_out(es.drop_last());
        let sr = siblings_of(es.drop_last());
        let tr = steps_of(es.drop_last());
        assert forall|i: int| 0 <= i < siblings_of(es).len() implies !is_test_name(
            #[trigger] siblings_of(es)[i],
        ) by {
            if i < sr.len() {
                assert(siblings_of(es)[i] == sr[i]);
            }
        }
        assert forall|i: int| 0 <= i < steps_of(es).len() implies !is_test_name(
            step_name(#[trigger] steps_of(es)[i]),
        ) by {
            if i < tr.len() {
                assert(steps_of(es)[i] == tr[i]);
            }
        }
    }
}

fn is_source_file(name: &[u8]) -> (r: bool)
    ensures
        r == is_source_name(name@),
{
    let d = find_after_last(name, 0x2Eu8);
    proof {
        lemma_after_last_bounds(name@, 0x2Eu8, name@.len() as int);
    }
    if d <= 1 {
        return true;
    }
    let ext = copy_range(name, d, name.len());
    let java: [u8; 4] = [0x6Au8, 0x61u8, 0x76u8, 0x61u8];
    assert(java@ =~= kw_java());
    bytes_eq(&ext, &java)
}

/// Decides, for one directory listing, which entries are siblings, which
/// are descended into and which are loaded.
pub fn plan_dir(entries: &[DirEntry]) -> (r: DirPlan)
    ensures
        r.siblings@.map_values(|v: Vec<u8>| v@) == siblings_of(entries@.map_values(|e: DirEntry| e@)),
        r.steps@.map_values(|s: Step| s@) == steps_of(entries@.map_values(|e: DirEntry| e@)),
{
    let ghost es = entries@.map_values(|e: DirEntry| e@);
    let suffix: [u8; 9] = [0x54u8, 0x65u8, 0x73u8, 0x74u8, 0x2Eu8, 0x6Au8, 0x61u8, 0x76u8, 0x61u8];
    assert(suffix@ =~= test_suffix());
    let mut siblings: Vec<Vec<u8>> = Vec::new();
    let mut steps: Vec<Step> = Vec::new();
    let mut k: usize = 0;
    proof {
        assert(siblings@.map_values(|v: Vec<u8>| v@) =~= siblings_of(es.take(0)));
        assert(steps@.map_values(|s: Step| s@) =~= steps_of(es.take(0)));
    }
    while k < entries.len()
        invariant
            k <= entries@.len(),
            es == entries@.map_values(|e: DirEntry| e@),
            suffix@ == test_suffix(),
            siblings@.map_values(|v: Vec<u8>| v@) == siblings_of(es.take(k as int)),
            steps@.map_values(|s: Step| s@) == steps_of(es.take(k as int)),
        decreases entries@.len() - k,
    {
        let e = &entries[k];
        proof {
            assert(es.take(k + 1).drop_last() =~= es.take(k as int));
            assert(es.take(k + 1).last() == e@);
        }
        if !ends_with(&e.name, &suffix) {
            let n1 = copy_range(&e.name, 0, e.name.len());
            let n2 = copy_range(&e.name, 0, e.name.len());
            assert(n1@ =~= e.name@);
            assert(n2@ =~= e.name@);
            siblings.push(n1);
            if e.is_dir {
                steps.push(Step::Descend(n2));
            } else if is_source_file(&e.name) {
                steps.push(Step::Load(n2));
            }
        }
        proof {
            assert(siblings@.map_values(|v: Vec<u8>| v@) =~= siblings_of(es.take(k + 1)));
            assert(steps@.map_values(|s: Step| s@) =~= steps_of(es.take(k + 1)));
        }
        k = k + 1;
    }
    proof {
        assert(es.take(k as int) =~= es);
    }
    DirPlan { siblings, steps }
}

} // verus!
