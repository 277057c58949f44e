//! Discovery of the units an entry unit reaches, and their assembly into
//! one output buffer.

use vstd::prelude::*;
use crate::bytes::{append_bytes, contains_id, copy_range, ids};
use crate::lang::SourceView;
use crate::map::{sibling_id, wired, SourceMap};

verus! {

/// The state of the depth-first discovery: the identifiers in the order
/// they were first met, and the worklist.
pub struct Dfs {
    pub exports: Seq<Seq<u8>>,
    pub stack: Seq<Seq<u8>>,
}

/// Appends each of `imps` not met before, in order, to the discovery list
/// and to the worklist.
pub open spec fn push_new(st: Dfs, imps: Seq<Seq<u8>>) -> Dfs
    decreases imps.len(),
{
    if imps.len() == 0 {
        st
    } else {
        let s1 = push_new(st, imps.drop_last());
        let x = imps.last();
        if s1.exports.contains(x) {
            s1
        } else {
            Dfs { exports: s1.exports.push(x), stack: s1.stack.push(x) }
        }
    }
}

/// One step: pop the top of the worklist and, if the table holds that unit,
/// meet its local imports.
pub open spec fn dfs_step(m: Map<Seq<u8>, SourceView>, st: Dfs) -> Dfs {
    if st.stack.len() == 0 {
        st
    } else {
        let top = st.stack.last();
        let popped = Dfs { exports: st.exports, stack: st.stack.drop_last() };
        if m.contains_key(top) {
            push_new(popped, m[top].local_imports)
        } else {
            popped
        }
    }
}

/// The discovery state after `n` steps from `entry`.
pub open spec fn dfs_run(m: Map<Seq<u8>, SourceView>, entry: Seq<u8>, n: nat) -> Dfs
    decreases n,
{
    if n == 0 {
        Dfs { exports: seq![entry], stack: seq![entry] }
    } else {
        dfs_step(m, dfs_run(m, entry, (n - 1) as nat))
    }
}

/// `order` is the discovery list that the search from `entry` ends with.
pub open spec fn discovered(
    m: Map<Seq<u8>, SourceView>,
    entry: Seq<u8>,
    order: Seq<Seq<u8>>,
) -> bool {
    exists|n: nat| #[trigger]
        dfs_run(m, entry, n).stack.len() == 0 && dfs_run(m, entry, n).exports == order
}

/// What assembling a list of identifiers yields.
pub struct Gathered {
    pub imports: Seq<u8>,
    pub body: Seq<u8>,
    pub missing: Seq<Seq<u8>>,
}

/// Takes each listed unit out of the table in turn: its foreign import
/// lines and its body are concatenated in list order; identifiers the table
/// does not hold (any more) are reported as missing.
pub open spec fn gather(m: Map<Seq<u8>, SourceView>, order: Seq<Seq<u8>>) -> Gathered
    decreases order.len(),
{
    if order.len() == 0 {
        Gathered { imports: Seq::empty(), body: Seq::empty(), missing: Seq::empty() }
    } else {
        let x = order[0];
        let rest = gather(m.remove(x), order.drop_first());
        if m.contains_key(x) {
            Gathered {
                imports: m[x].foreign_imports + rest.imports,
                body: m[x].content + rest.body,
                missing: rest.missing,
            }
        } else {
            Gathered { missing: seq![x] + rest.missing, ..rest }
        }
    }
}

/// `output` and `missing` are what resolving `entry` against `m` yields.
pub open spec fn resolved(
    m: Map<Seq<u8>, SourceView>,
    entry: Seq<u8>,
    output: Seq<u8>,
    missing: Seq<Seq<u8>>,
) -> bool {
    exists|order: Seq<Seq<u8>>| #[trigger]
        discovered(m, entry, order) && output == gather(m, order).imports + gather(m, order).body
            && missing == gather(m, order).missing
}

/// The bundle of an entry unit: the hoisted foreign import lines followed by
/// the bodies, and the identifiers that no loaded unit answered.
pub struct Bundle {
    pub output: Vec<u8>,
    pub missing: Vec<Vec<u8>>,
}

/// The discovery list of `entry`: every identifier reachable from it through
/// local imports, in the order first met.
pub fn discover(map: &SourceMap, entry: &[u8]) -> (r: Vec<Vec<u8>>)
    requires
        map.wf(),
    ensures
        discovered(map@, entry@, ids(r@)),
{
    let ghost m = map@;
    let ghost e = entry@;
    let mut exports: Vec<Vec<u8>> = Vec::new();
    let mut stack: Vec<Vec<u8>> = Vec::new();
    let first = copy_range(entry, 0, entry.len());
    let second = copy_range(entry, 0, entry.len());
    assert(first@ =~= entry@);
    assert(second@ =~= entry@);
    exports.push(first);
    stack.push(second);
    let ghost mut n: nat = 0;
    let ghost mut popped: Set<Seq<u8>> = Set::empty();
    proof {
        map.lemma_finite();
        assert(ids(exports@) =~= seq![e]);
        assert(ids(stack@) =~= seq![e]);
    }
    while stack.len() > 0
        invariant
            map.wf(),
            m == map@,
            e == entry@,
            m.dom().finite(),
            dfs_run(m, e, n) == (Dfs { exports: ids(exports@), stack: ids(stack@) }),
            ids(exports@).no_duplicates(),
            ids(stack@).no_duplicates(),
            forall|x: Seq<u8>| #[trigger] ids(stack@).contains(x) ==> !popped.contains(x),
            forall|x: Seq<u8>| #[trigger] popped.contains(x) ==> ids(exports@).contains(x),
            forall|x: Seq<u8>| #[trigger] ids(stack@).contains(x) ==> ids(exports@).contains(x),
            forall|x: Seq<u8>|
                #[trigger] ids(exports@).contains(x) ==> popped.contains(x) || ids(
                    stack@,
                ).contains(x),
        decreases m.dom().difference(popped).len(), stack@.len(),
    {
        let ghost before = Dfs { exports: ids(exports@), stack: ids(stack@) };
        let ghost diff_before = m.dom().difference(popped);
        let top = stack.pop().unwrap();
        proof {
            assert(ids(stack@) =~= before.stack.drop_last());
            assert(top@ == before.stack.last());
            assert(before.stack.contains(top@));
            assert(!ids(stack@).contains(top@)) by {
                if ids(stack@).contains(top@) {
                    let k = choose|k: int| 0 <= k < ids(stack@).len() && ids(stack@)[k] == top@;
                    assert(before.stack[k] == before.stack[before.stack.len() - 1]);
                }
            }
            let old_popped = popped;
            popped = popped.insert(top@);
            assert forall|x: Seq<u8>| #[trigger] ids(stack@).contains(x) implies !popped.contains(x) && ids(exports@).contains(x) by {
                let k = choose|k: int| 0 <= k < ids(stack@).len() && ids(stack@)[k] == x;
                assert(before.stack[k] == x);
                assert(before.stack.contains(x));
            }
            assert forall|x: Seq<u8>| #[trigger] ids(exports@).contains(x) implies popped.contains(x) || ids(stack@).contains(x) by {
                if x != top@ && before.stack.contains(x) {
                    let k = choose|k: int| 0 <= k < before.stack.len() && before.stack[k] == x;
                    assert(k != before.stack.len() - 1);
                    assert(ids(stack@)[k] == x);
                }
            }
        }
        let ghost base = Dfs { exports: ids(exports@), stack: ids(stack@) };
        match map.get(&top) {
            Some(src) => {
                let imps = src.get_import_files();
                let ghost iv = ids(imps@);
                assert(iv == m[top@].local_imports);
                let mut j: usize = 0;
                proof {
                    assert(iv.take(0) =~= Seq::<Seq<u8>>::empty());
                }
                while j < imps.len()
                    invariant
                        j <= imps@.len(),
                        iv == ids(imps@),
                        push_new(base, iv.take(j as int)) == (Dfs {
                            exports: ids(exports@),
                            stack: ids(stack@),
                        }),
                        ids(exports@).no_duplicates(),
                        ids(stack@).no_duplicates(),
                        forall|x: Seq<u8>| #[trigger] ids(stack@).contains(x) ==> !popped.contains(x),
                        forall|x: Seq<u8>| #[trigger] popped.contains(x) ==> ids(exports@).contains(x),
                        forall|x: Seq<u8>| #[trigger] ids(stack@).contains(x) ==> ids(exports@).contains(x),
                        forall|x: Seq<u8>|
                            #[trigger] ids(exports@).contains(x) ==> popped.contains(x) || ids(
                                stack@,
                            ).contains(x),
                    decreases imps@.len() - j,
                {
                    proof {
                        assert(iv.take(j + 1).drop_last() =~= iv.take(j as int));
                        assert(iv.take(j + 1).last() == iv[j as int]);
                    }
                    if !contains_id(&exports, imps[j].as_slice()) {
                        let ghost x = imps@[j as int]@;
                        let ghost old_e = ids(exports@);
                        let ghost old_s = ids(stack@);
                        let a = copy_range(imps[j].as_slice(), 0, imps[j].len());
                        let b = copy_range(imps[j].as_slice(), 0, imps[j].len());
                        exports.push(a);
                        stack.push(b);
                        proof {
                            assert(a@ =~= x);
                            assert(b@ =~= x);
                            assert(ids(exports@) =~= old_e.push(x));
                            assert(ids(stack@) =~= old_s.push(x));
                            assert(!old_s.contains(x));
                            assert(!popped.contains(x));
                            assert forall|y: Seq<u8>| #[trigger] ids(stack@).contains(y) implies !popped.contains(y) by {
                                if y != x {
                                    let k = choose|k: int| 0 <= k < ids(stack@).len() && ids(stack@)[k] == y;
                                    assert(old_s[k] == y);
                                    assert(old_s.contains(y));
                                }
                            }
                            assert forall|y: Seq<u8>| #[trigger] ids(exports@).contains(y) implies popped.contains(y) || ids(stack@).contains(y) by {
                                if y != x {
                                    let k = choose|k: int| 0 <= k < ids(exports@).len() && ids(exports@)[k] == y;
                                    assert(old_e[k] == y);
                                    assert(old_e.contains(y));
                                    if old_s.contains(y) {
                                        let q = choose|q: int| 0 <= q < old_s.len() && old_s[q] == y;
                                        assert(ids(stack@)[q] == y);
                                    }
                                } else {
                                    assert(ids(stack@)[ids(stack@).len() - 1] == x);
                                }
                            }
                            assert forall|y: Seq<u8>| #[trigger] ids(stack@).contains(y) implies ids(exports@).contains(y) by {
                                if y != x {
                                    let k = choose|k: int| 0 <= k < ids(stack@).len() && ids(stack@)[k] == y;
                                    assert(old_s[k] == y);
                                    assert(old_s.contains(y));
                                    let q = choose|q: int| 0 <= q < old_e.len() && old_e[q] == y;
                                    assert(ids(exports@)[q] == y);
                                } else {
                                    assert(ids(exports@)[ids(exports@).len() - 1] == x);
                                }
                            }
                            assert forall|y: Seq<u8>| #[trigger] popped.contains(y) implies ids(exports@).contains(y) by {
                                assert(old_e.contains(y));
                                let k = choose|k: int| 0 <= k < old_e.len() && old_e[k] == y;
                                assert(ids(exports@)[k] == y);
                            }
                        }
                    }
                    j = j + 1;
                }
                proof {
                    assert(iv.take(j as int) =~= iv);
                }
            },
            None => {},
        }
        proof {
            assert(dfs_step(m, before) == (Dfs { exports: ids(exports@), stack: ids(stack@) }));
            n = n + 1;
            if m.contains_key(top@) {
                assert(diff_before.contains(top@));
                assert(m.dom().difference(popped) =~= diff_before.remove(top@));
            } else {
                assert(m.dom().difference(popped) =~= diff_before);
            }
        }
    }
    assert(dfs_run(m, e, n).stack.len() == 0);
    exports
}

/// Takes the units of `order` out of `map`, in order, and concatenates their
/// foreign import lines, then their bodies.
pub fn assemble(map: SourceMap, order: &[Vec<u8>]) -> (r: Bundle)
    requires
        map.wf(),
    ensures
        r.output@ == gather(map@, ids(order@)).imports + gather(map@, ids(order@)).body,
        ids(r.missing@) == gather(map@, ids(order@)).missing,
{
    let ghost m0 = map@;
    let ghost os = ids(order@);
    let mut map = map;
    let mut imports: Vec<u8> = Vec::new();
    let mut body: Vec<u8> = Vec::new();
    let mut missing: Vec<Vec<u8>> = Vec::new();
    let mut k: usize = 0;
    proof {
        assert(os.skip(0) =~= os);
        assert(ids(missing@) =~= Seq::<Seq<u8>>::empty());
    }
    while k < order.len()
        invariant
            map.wf(),
            k <= order@.len(),
            os == ids(order@),
            gather(m0, os).imports == imports@ + gather(map@, os.skip(k as int)).imports,
            gather(m0, os).body == body@ + gather(map@, os.skip(k as int)).body,
            gather(m0, os).missing == ids(missing@) + gather(map@, os.skip(k as int)).missing,
        decreases order@.len() - k,
    {
        let ghost mk = map@;
        let ghost x = os[k as int];
        proof {
            assert(os.skip(k as int).drop_first() =~= os.skip(k + 1));
            assert(os.skip(k as int)[0] == x);
        }
        let ghost rest = gather(mk.remove(x), os.skip(k + 1));
        match map.remove(order[k].as_slice()) {
            Some(mut src) => {
                let c = src.into_content();
                let f = src.get_import_content();
                append_bytes(&mut imports, &f);
                append_bytes(&mut body, &c);
                proof {
                    assert(gather(m0, os).imports =~= imports@ + rest.imports);
                    assert(gather(m0, os).body =~= body@ + rest.body);
                }
            },
            None => {
                let ghost old_missing = ids(missing@);
                let name = copy_range(order[k].as_slice(), 0, order[k].len());
                assert(name@ =~= x);
                missing.push(name);
                proof {
                    assert(ids(missing@) =~= old_missing.push(x));
                    assert(gather(m0, os).missing =~= ids(missing@) + rest.missing);
                }
            },
        }
        k = k + 1;
    }
    let mut output = imports;
    append_bytes(&mut output, &body);
    proof {
        assert(os.skip(k as int) =~= Seq::<Seq<u8>>::empty());
        assert(imports@ =~= imports@ + Seq::<u8>::empty());
    }
    Bundle { output, missing }
}

/// Resolves the unit `entry` against the table: discovery, then assembly.
pub fn resolve(map: SourceMap, entry: &[u8]) -> (r: Bundle)
    requires
        map.wf(),
    ensures
        resolved(map@, entry@, r.output@, ids(r.missing@)),
{
    let order = discover(&map, entry);
    let ghost m = map@;
    let r = assemble(map, &order);
    assert(discovered(m, entry@, ids(order@)));
    r
}

proof fn lemma_push_new_grows(st: Dfs, imps: Seq<Seq<u8>>)
    ensures
        forall|x: Seq<u8>| st.exports.contains(x) ==> #[trigger] push_new(st, imps).exports.contains(x),
        forall|i: int| 0 <= i < imps.len() ==> push_new(st, imps).exports.contains(#[trigger] imps[i]),
    decreases imps.len(),
{
    if imps.len() > 0 {
        let s1 = push_new(st, imps.drop_last());
        lemma_push_new_grows(st, imps.drop_last());
        let r = push_new(st, imps);
        assert forall|x: Seq<u8>| s1.exports.contains(x) implies r.exports.contains(x) by {
            if !s1.exports.contains(imps.last()) {
                let k = choose|k: int| 0 <= k < s1.exports.len() && s1.exports[k] == x;
                assert(r.exports[k] == x);
            }
        }
        assert forall|i: int| 0 <= i < imps.len() implies r.exports.contains(#[trigger] imps[i]) by {
            if i < imps.len() - 1 {
                assert(imps.drop_last()[i] == imps[i]);
                assert(s1.exports.contains(imps[i]));
            } else if !s1.exports.contains(imps.last()) {
                assert(r.exports[r.exports.len() - 1] == imps.last());
            }
        }
    }
}

proof fn lemma_step_grows(m: Map<Seq<u8>, SourceView>, st: Dfs)
    ensures
        forall|x: Seq<u8>| st.exports.contains(x) ==> #[trigger] dfs_step(m, st).exports.contains(x),
{
    if st.stack.len() > 0 {
        let popped = Dfs { exports: st.exports, stack: st.stack.drop_last() };
        if m.contains_key(st.stack.last()) {
            lemma_push_new_grows(popped, m[st.stack.last()].local_imports);
        }
    }
}

proof fn lemma_run_grows(m: Map<Seq<u8>, SourceView>, entry: Seq<u8>, i: nat, n: nat)
    requires
        i <= n,
    ensures
        forall|x: Seq<u8>| dfs_run(m, entry, i).exports.contains(x) ==> #[trigger] dfs_run(m, entry, n).exports.contains(x),
    decreases n - i,
{
    if i < n {
        lemma_run_grows(m, entry, i, (n - 1) as nat);
        lemma_step_grows(m, dfs_run(m, entry, (n - 1) as nat));
    }
}

proof fn lemma_run_stable(m: Map<Seq<u8>, SourceView>, entry: Seq<u8>, n: nat, k: nat)
    requires
        n <= k,
        dfs_run(m, entry, n).stack.len() == 0,
    ensures
        dfs_run(m, entry, k) == dfs_run(m, entry, n),
    decreases k - n,
{
    if n < k {
        lemma_run_stable(m, entry, n, (k - 1) as nat);
    }
}

/// The search ends with one discovery list only.
pub proof fn lemma_discovery_unique(
    m: Map<Seq<u8>, SourceView>,
    entry: Seq<u8>,
    o1: Seq<Seq<u8>>,
    o2: Seq<Seq<u8>>,
)
    requires
        discovered(m, entry, o1),
        discovered(m, entry, o2),
    ensures
        o1 == o2,
{
    let n1 = choose|n: nat| #[trigger]
        dfs_run(m, entry, n).stack.len() == 0 && dfs_run(m, entry, n).exports == o1;
    let n2 = choose|n: nat| #[trigger]
        dfs_run(m, entry, n).stack.len() == 0 && dfs_run(m, entry, n).exports == o2;
    if n1 <= n2 {
        lemma_run_stable(m, entry, n1, n2);
    } else {
        lemma_run_stable(m, entry, n2, n1);
    }
}

/// Resolving the same entry against the same table twice yields the same
/// output and the same missing identifiers.
pub proof fn lemma_resolve_deterministic(
    m: Map<Seq<u8>, SourceView>,
    entry: Seq<u8>,
    out1: Seq<u8>,
    missing1: Seq<Seq<u8>>,
    out2: Seq<u8>,
    missing2: Seq<Seq<u8>>,
)
    requires
        resolved(m, entry, out1, missing1),
        resolved(m, entry, out2, missing2),
    ensures
        out1 == out2,
        missing1 == missing2,
{
    let o1 = choose|o: Seq<Seq<u8>>| #[trigger]
        discovered(m, entry, o) && out1 == gather(m, o).imports + gather(m, o).body && missing1
            == gather(m, o).missing;
    let o2 = choose|o: Seq<Seq<u8>>| #[trigger]
        discovered(m, entry, o) && out2 == gather(m, o).imports + gather(m, o).body && missing2
            == gather(m, o).missing;
    lemma_discovery_unique(m, entry, o1, o2);
}

/// The discovery list starts with `entry`, and neither the rest of it nor
/// the worklist names a unit of the table.
pub open spec fn lone_state(m: Map<Seq<u8>, SourceView>, entry: Seq<u8>, st: Dfs) -> bool {
    &&& st.exports.len() >= 1
    &&& st.exports[0] == entry
    &&& forall|i: int| 1 <= i < st.exports.len() ==> !m.contains_key(#[trigger] st.exports[i])
    &&& forall|i: int| 0 <= i < st.stack.len() ==> !m.contains_key(#[trigger] st.stack[i])
}

proof fn lemma_push_lone(m: Map<Seq<u8>, SourceView>, entry: Seq<u8>, st: Dfs, imps: Seq<Seq<u8>>)
    requires
        lone_state(m, entry, st),
        forall|i: int| 0 <= i < imps.len() ==> #[trigger] imps[i] == entry || !m.contains_key(imps[i]),
    ensures
        lone_state(m, entry, push_new(st, imps)),
    decreases imps.len(),
{
    if imps.len() > 0 {
        let d = imps.drop_last();
        assert forall|i: int| 0 <= i < d.len() implies #[trigger] d[i] == entry || !m.contains_key(d[i]) by {
            assert(d[i] == imps[i]);
        }
        lemma_push_lone(m, entry, st, d);
        let s1 = push_new(st, d);
        let x = imps.last();
        assert(imps[imps.len() - 1] == x);
        if !s1.exports.contains(x) {
            assert(x != entry) by {
                assert(s1.exports[0] == entry);
            }
            let r = push_new(st, imps);
            assert forall|i: int| 1 <= i < r.exports.len() implies !m.contains_key(#[trigger] r.exports[i]) by {
                if i < s1.exports.len() {
                    assert(r.exports[i] == s1.exports[i]);
                }
            }
            assert forall|i: int| 0 <= i < r.stack.len() implies !m.contains_key(#[trigger] r.stack[i]) by {
                if i < s1.stack.len() {
                    assert(r.stack[i] == s1.stack[i]);
                }
            }
        }
    }
}

proof fn lemma_drain(m: Map<Seq<u8>, SourceView>, entry: Seq<u8>, n: nat) -> (k: nat)
    requires
        lone_state(m, entry, dfs_run(m, entry, n)),
    ensures
        dfs_run(m, entry, k).stack.len() == 0,
        dfs_run(m, entry, k).exports == dfs_run(m, entry, n).exports,
    decreases dfs_run(m, entry, n).stack.len(),
{
    let st = dfs_run(m, entry, n);
    if st.stack.len() == 0 {
        n
    } else {
        let next = dfs_run(m, entry, n + 1);
        assert(st.stack.last() == st.stack[st.stack.len() - 1]);
        assert(next == (Dfs { exports: st.exports, stack: st.stack.drop_last() }));
        assert forall|i: int| 0 <= i < next.stack.len() implies !m.contains_key(#[trigger] next.stack[i]) by {
            assert(next.stack[i] == st.stack[i]);
        }
        lemma_drain(m, entry, n + 1)
    }
}

proof fn lemma_gather_absent(m: Map<Seq<u8>, SourceView>, order: Seq<Seq<u8>>)
    requires
        forall|i: int| 0 <= i < order.len() ==> !m.contains_key(#[trigger] order[i]),
    ensures
        gather(m, order).imports.len() == 0,
        gather(m, order).body.len() == 0,
    decreases order.len(),
{
    if order.len() > 0 {
        let t = order.drop_first();
        let m1 = m.remove(order[0]);
        assert forall|i: int| 0 <= i < t.len() implies !m1.contains_key(#[trigger] t[i]) by {
            assert(t[i] == order[i + 1]);
        }
        lemma_gather_absent(m1, t);
    }
}

/// An entry unit whose local imports each name the entry itself or no unit
/// of the table resolves to its own foreign import lines followed by its
/// own body.
pub proof fn lemma_lone_unit(
    m: Map<Seq<u8>, SourceView>,
    entry: Seq<u8>,
    output: Seq<u8>,
    missing: Seq<Seq<u8>>,
)
    requires
        resolved(m, entry, output, missing),
        m.contains_key(entry),
        forall|i: int|
            0 <= i < m[entry].local_imports.len() ==> #[trigger] m[entry].local_imports[i] == entry
                || !m.contains_key(m[entry].local_imports[i]),
    ensures
        output == m[entry].foreign_imports + m[entry].content,
{
    let o = choose|o: Seq<Seq<u8>>| #[trigger]
        discovered(m, entry, o) && output == gather(m, o).imports + gather(m, o).body && missing
            == gather(m, o).missing;
    let start = Dfs { exports: seq![entry], stack: Seq::empty() };
    assert(seq![entry].drop_last() =~= Seq::<Seq<u8>>::empty());
    assert(dfs_run(m, entry, 0) == (Dfs { exports: seq![entry], stack: seq![entry] }));
    assert(seq![entry].last() == entry);
    assert(dfs_run(m, entry, 1) == push_new(start, m[entry].local_imports));
    lemma_push_lone(m, entry, start, m[entry].local_imports);
    let k = lemma_drain(m, entry, 1);
    let ex = dfs_run(m, entry, k).exports;
    assert(discovered(m, entry, ex));
    lemma_discovery_unique(m, entry, o, ex);
    let t = ex.drop_first();
    let m1 = m.remove(entry);
    assert forall|i: int| 0 <= i < t.len() implies !m1.contains_key(#[trigger] t[i]) by {
        assert(t[i] == ex[i + 1]);
    }
    lemma_gather_absent(m1, t);
    let rest = gather(m1, t);
    assert(gather(m, ex).imports == m[entry].foreign_imports + rest.imports);
    assert(rest.imports =~= Seq::<u8>::empty());
    assert(rest.body =~= Seq::<u8>::empty());
    assert(gather(m, ex).imports =~= m[entry].foreign_imports);
    assert(gather(m, ex).body =~= m[entry].content);
}

/// A unit sees every file of its directory: a unit loaded with `sibling`
/// among its siblings reaches that sibling's identifier.
pub proof fn lemma_sibling_discovered(
    m: Map<Seq<u8>, SourceView>,
    unit: SourceView,
    siblings: Seq<Seq<u8>>,
    sibling: Seq<u8>,
    order: Seq<Seq<u8>>,
)
    requires
        m.contains_key(unit.identifier),
        m[unit.identifier] == wired(unit, siblings),
        siblings.contains(sibling),
        discovered(m, unit.identifier, order),
    ensures
        order.contains(sibling_id(unit, sibling)),
{
    let e = unit.identifier;
    let n = choose|n: nat| #[trigger]
        dfs_run(m, e, n).stack.len() == 0 && dfs_run(m, e, n).exports == order;
    let start = Dfs { exports: seq![e], stack: Seq::empty() };
    assert(seq![e].drop_last() =~= Seq::<Seq<u8>>::empty());
    assert(dfs_run(m, e, 0) == (Dfs { exports: seq![e], stack: seq![e] }));
    assert(seq![e].last() == e);
    let imps = m[e].local_imports;
    assert(dfs_run(m, e, 1) == push_new(start, imps));
    lemma_push_new_grows(start, imps);
    let k = choose|k: int| 0 <= k < siblings.len() && siblings[k] == sibling;
    let i = unit.local_imports.len() + k;
    assert(imps[i] == sibling_id(unit, sibling));
    assert(dfs_run(m, e, 1).exports.contains(imps[i]));
    assert(n >= 1);
    lemma_run_grows(m, e, 1, n);
}

proof fn lemma_push_new_shape(st: Dfs, imps: Seq<Seq<u8>>)
    ensures
        push_new(st, imps).exports.len() >= st.exports.len(),
        forall|i: int| 0 <= i < st.exports.len() ==> #[trigger] push_new(st, imps).exports[i] == st.exports[i],
        st.exports.no_duplicates() ==> push_new(st, imps).exports.no_duplicates(),
    decreases imps.len(),
{
    if imps.len() > 0 {
        lemma_push_new_shape(st, imps.drop_last());
        let s1 = push_new(st, imps.drop_last());
        let r = push_new(st, imps);
        if !s1.exports.contains(imps.last()) {
            assert forall|i: int| 0 <= i < st.exports.len() implies #[trigger] r.exports[i] == st.exports[i] by {
                assert(r.exports[i] == s1.exports[i]);
            }
            if s1.exports.no_duplicates() {
                assert forall|a: int, b: int| 0 <= a < r.exports.len() && 0 <= b < r.exports.len() && a != b implies r.exports[a] != r.exports[b] by {
                    if a == r.exports.len() - 1 {
                        assert(s1.exports[b] == r.exports[b]);
                    } else if b == r.exports.len() - 1 {
                        assert(s1.exports[a] == r.exports[a]);
                    }
                }
            }
        }
    }
}

proof fn lemma_run_shape(m: Map<Seq<u8>, SourceView>, entry: Seq<u8>, n: nat)
    ensures
        dfs_run(m, entry, n).exports.len() >= 1,
        dfs_run(m, entry, n).exports[0] == entry,
        dfs_run(m, entry, n).exports.no_duplicates(),
    decreases n,
{
    if n > 0 {
        lemma_run_shape(m, entry, (n - 1) as nat);
        let st = dfs_run(m, entry, (n - 1) as nat);
        if st.stack.len() > 0 {
            let popped = Dfs { exports: st.exports, stack: st.stack.drop_last() };
            if m.contains_key(st.stack.last()) {
                lemma_push_new_shape(popped, m[st.stack.last()].local_imports);
            }
        }
    }
}

proof fn lemma_gather_has(m: Map<Seq<u8>, SourceView>, order: Seq<Seq<u8>>, p: int)
    requires
        0 <= p < order.len(),
        m.contains_key(order[p]),
        forall|q: int| 0 <= q < p ==> #[trigger] order[q] != order[p],
    ensures
        exists|pre: Seq<u8>, post: Seq<u8>| gather(m, order).body == pre + m[order[p]].content + post,
    decreases p,
{
    let x = order[0];
    let t = order.drop_first();
    let rest = gather(m.remove(x), t);
    if p == 0 {
        assert(gather(m, order).body == Seq::<u8>::empty() + m[order[p]].content + rest.body);
    } else {
        assert(order[0] != order[p]);
        assert(t[p - 1] == order[p]);
        assert forall|q: int| 0 <= q < p - 1 implies #[trigger] t[q] != t[p - 1] by {
            assert(t[q] == order[q + 1]);
        }
        lemma_gather_has(m.remove(x), t, p - 1);
        let (pre, post) = choose|pre: Seq<u8>, post: Seq<u8>| rest.body == pre + m[order[p]].content + post;
        let head = if m.contains_key(x) {
            m[x].content
        } else {
            Seq::<u8>::empty()
        };
        assert(gather(m, order).body =~= (head + pre) + m[order[p]].content + post);
    }
}

/// A unit that the entry sees as a sibling, and that the table holds, has
/// its body in the output after the entry's own body.
pub proof fn lemma_sibling_follows(
    m: Map<Seq<u8>, SourceView>,
    unit: SourceView,
    siblings: Seq<Seq<u8>>,
    sibling: Seq<u8>,
    output: Seq<u8>,
    missing: Seq<Seq<u8>>,
)
    requires
        m.contains_key(unit.identifier),
        m[unit.identifier] == wired(unit, siblings),
        siblings.contains(sibling),
        m.contains_key(sibling_id(unit, sibling)),
        sibling_id(unit, sibling) != unit.identifier,
        resolved(m, unit.identifier, output, missing),
    ensures
        exists|h: Seq<u8>, pre: Seq<u8>, post: Seq<u8>|
            output == h + m[unit.identifier].content + pre + m[sibling_id(unit, sibling)].content
                + post,
{
    let e = unit.identifier;
    let sid = sibling_id(unit, sibling);
    let o = choose|o: Seq<Seq<u8>>| #[trigger]
        discovered(m, e, o) && output == gather(m, o).imports + gather(m, o).body && missing
            == gather(m, o).missing;
    lemma_sibling_discovered(m, unit, siblings, sibling, o);
    let n = choose|n: nat| #[trigger]
        dfs_run(m, e, n).stack.len() == 0 && dfs_run(m, e, n).exports == o;
    lemma_run_shape(m, e, n);
    let p = choose|p: int| 0 <= p < o.len() && o[p] == sid;
    assert(p > 0);
    let t = o.drop_first();
    assert(t[p - 1] == sid);
    assert forall|q: int| 0 <= q < p - 1 implies #[trigger] t[q] != t[p - 1] by {
        assert(t[q] == o[q + 1]);
    }
    let m1 = m.remove(e);
    assert(m1[sid] == m[sid]);
    lemma_gather_has(m1, t, p - 1);
    let g = gather(m, o);
    let (pre, post) = choose|pre: Seq<u8>, post: Seq<u8>| gather(m1, t).body == pre + m1[sid].content + post;
    assert(g.body == m[e].content + gather(m1, t).body);
    assert(output =~= g.imports + m[e].content + pre + m[sid].content + post);
}

} // verus!
