use crate::symbol::Symbol;
use crate::utils::input_elf::InputElf;
use vstd::prelude::*;

verus! {

/// How many global symbol records the object has.
pub open spec fn global_count(o: InputElf) -> int {
    match o.symbol_info {
        Some(info) => info.global_symbols@.len() as int,
        None => 0,
    }
}

/// Whether the global record `j` of the object defines the symbol with the
/// handle `h`: the record has that handle and names a section of the object.
pub open spec fn defines_at(o: InputElf, h: int, j: int) -> bool {
    o.symbol_info matches Some(info) && 0 <= j < info.global_symbols@.len() && info.first_global
        + j < info.elf_symbols@.len() && info.global_symbols@[j] == h
        && info.elf_symbols@[info.first_global + j].is_concrete()
}

/// The first of the first `n` global records of the object that defines
/// the symbol with the handle `h`.
pub open spec fn first_def_in(o: InputElf, h: int, n: int) -> Option<int>
    decreases n,
{
    if n <= 0 {
        None
    } else {
        match first_def_in(o, h, n - 1) {
            Some(j) => Some(j),
            None => if defines_at(o, h, n - 1) {
                Some(n - 1)
            } else {
                None
            },
        }
    }
}

/// The first of the first `n` objects that defines the symbol with the
/// handle `h`, and the first of its global records that does.
pub open spec fn first_definer(objects: Seq<InputElf>, h: int, n: int) -> Option<(int, int)>
    decreases n,
{
    if n <= 0 {
        None
    } else {
        match first_definer(objects, h, n - 1) {
            Some(x) => Some(x),
            None => match first_def_in(objects[n - 1], h, global_count(objects[n - 1])) {
                Some(j) => Some((n - 1, j)),
                None => None,
            },
        }
    }
}

/// The symbol `s` once the global record `j` of the object `o` has claimed
/// it: defined by `o`, at the record's index in the symbol table of `o`, with
/// the record's value.
pub open spec fn claim(s: Symbol, o: InputElf, j: int) -> Symbol {
    let info = o.symbol_info->Some_0;
    Symbol {
        elf: Some(o.id),
        index: (info.first_global + j) as usize,
        value: info.elf_symbols@[info.first_global + j].val as usize,
        ..s
    }
}

/// The symbol `s` with the handle `h` after the first `n` global records
/// of the object `o` were looked at: a symbol that has a defining object
/// keeps it, and one that has none is claimed by the first record that
/// defines it.
pub open spec fn resolved_by(o: InputElf, s: Symbol, h: int, n: int) -> Symbol {
    if s.elf is Some {
        s
    } else {
        match first_def_in(o, h, n) {
            Some(j) => claim(s, o, j),
            None => s,
        }
    }
}

/// The symbol `s` with the handle `h` after the first `n` objects were
/// looked at, in order: a symbol that has a defining object keeps it, and
/// one that has none is claimed by the first object that defines it.
pub open spec fn resolved(objects: Seq<InputElf>, s: Symbol, h: int, n: int) -> Symbol {
    if s.elf is Some {
        s
    } else {
        match first_definer(objects, h, n) {
            Some(x) => claim(s, objects[x.0], x.1),
            None => s,
        }
    }
}

/// Whether `after` is the table of symbols `before` after resolution over
/// `objects`: every symbol that had no defining object has the first object
/// that defines it, if there is one, and is otherwise as it was.
pub open spec fn resolution(objects: Seq<InputElf>, before: Seq<Symbol>, after: Seq<Symbol>) -> bool {
    &&& after.len() == before.len()
    &&& forall|h: int|
        0 <= h < before.len() ==> #[trigger] after[h] == resolved(
            objects,
            before[h],
            h,
            objects.len() as int,
        )
}

/// What `first_def_in` finds is the first record that defines the symbol,
/// and it finds nothing only where no record does.
pub proof fn lemma_first_def_in(o: InputElf, h: int, n: int)
    ensures
        match first_def_in(o, h, n) {
            Some(j) => 0 <= j < n && defines_at(o, h, j) && forall|k: int|
                0 <= k < j ==> !defines_at(o, h, k),
            None => forall|k: int| 0 <= k < n ==> !defines_at(o, h, k),
        },
    decreases n,
{
    if n > 0 {
        lemma_first_def_in(o, h, n - 1);
    }
}

/// What `first_definer` finds is the first object that defines the symbol,
/// with its first record that does, and it finds nothing only where no
/// object defines the symbol.
pub proof fn lemma_first_definer(objects: Seq<InputElf>, h: int, n: int)
    requires
        n <= objects.len(),
    ensures
        match first_definer(objects, h, n) {
            Some(x) => 0 <= x.0 < n && defines_at(objects[x.0], h, x.1) && (forall|k: int|
                0 <= k < x.1 ==> !defines_at(objects[x.0], h, k)) && (forall|q: int, k: int|
                0 <= q < x.0 ==> !#[trigger] defines_at(objects[q], h, k)),
            None => forall|q: int, k: int| 0 <= q < n ==> !#[trigger] defines_at(objects[q], h, k),
        },
    decreases n,
{
    if n > 0 {
        lemma_first_definer(objects, h, n - 1);
        let o = objects[n - 1];
        lemma_first_def_in(o, h, global_count(o));
        if first_definer(objects, h, n - 1) is None {
            if first_def_in(o, h, global_count(o)) is None {
                assert forall|q: int, k: int| 0 <= q < n implies !#[trigger] defines_at(
                    objects[q],
                    h,
                    k,
                ) by {
                    if q == n - 1 {
                        if defines_at(o, h, k) {
                            assert(0 <= k < global_count(o));
                        }
                    }
                }
            }
        }
    }
}

/// First definition wins: where some object defines a symbol that has no
/// defining object yet, resolution gives the symbol to the first object, in
/// the order of ingest, that has a record for it with a section of its own,
/// whatever objects define it later.
pub proof fn lemma_first_definition_wins(
    objects: Seq<InputElf>,
    s: Symbol,
    h: int,
    q: int,
    k: int,
)
    requires
        s.elf is None,
        0 <= q < objects.len(),
        defines_at(objects[q], h, k),
    ensures
        first_definer(objects, h, objects.len() as int) matches Some(x) && 0 <= x.0 <= q
            && resolved(objects, s, h, objects.len() as int).elf == Some(objects[x.0].id)
            && defines_at(objects[x.0], h, x.1) && forall|p: int, j: int|
            0 <= p < x.0 ==> !#[trigger] defines_at(objects[p], h, j),
{
    lemma_first_definer(objects, h, objects.len() as int);
}

/// The id of the object that the global record `j` of the object `o`
/// refers to, if it refers to one: the record is an undefined reference, and
/// the symbol it names is defined by an object other than `o`.
pub open spec fn refers_at(o: InputElf, symbols: Seq<Symbol>, j: int) -> Option<usize> {
    match o.symbol_info {
        Some(info) => if 0 <= j < info.global_symbols@.len() && info.first_global + j
            < info.elf_symbols@.len() && info.global_symbols@[j] < symbols.len()
            && info.elf_symbols@[info.first_global + j].shndx == 0 {
            match symbols[info.global_symbols@[j] as int].elf {
                Some(id) => if id != o.id {
                    Some(id)
                } else {
                    None
                },
                None => None,
            }
        } else {
            None
        },
        None => None,
    }
}

/// The ids that the first `n` global records of the object refer to, in
/// the order of the records.
pub open spec fn referenced(o: InputElf, symbols: Seq<Symbol>, n: int) -> Seq<usize>
    decreases n,
{
    if n <= 0 {
        Seq::empty()
    } else {
        match refers_at(o, symbols, n - 1) {
            Some(id) => referenced(o, symbols, n - 1).push(id),
            None => referenced(o, symbols, n - 1),
        }
    }
}

/// Whether the object at `a` has an undefined reference to a symbol that
/// the object at `b` defines.
pub open spec fn edge(objects: Seq<InputElf>, symbols: Seq<Symbol>, a: int, b: int) -> bool {
    &&& 0 <= a < objects.len()
    &&& 0 <= b < objects.len()
    &&& exists|j: int| #[trigger] refers_at(objects[a], symbols, j) == Some(objects[b].id)
}

/// Whether `path` is a chain of objects in which each has an undefined
/// reference that the next one defines.
pub open spec fn is_path(objects: Seq<InputElf>, symbols: Seq<Symbol>, path: Seq<int>) -> bool {
    &&& path.len() >= 1
    &&& forall|i: int| 0 <= i < path.len() ==> 0 <= #[trigger] path[i] < objects.len()
    &&& forall|i: int|
        0 <= i < path.len() - 1 ==> edge(objects, symbols, #[trigger] path[i], path[i + 1])
}

/// Whether the object at `b` can be reached from an object that is alive,
/// along undefined references.
pub open spec fn reachable(objects: Seq<InputElf>, symbols: Seq<Symbol>, b: int) -> bool {
    exists|path: Seq<int>|
        #[trigger] is_path(objects, symbols, path) && objects[path[0]].is_alive && path.last() == b
}

/// Whether `after` is `before` with nothing changed but which objects are
/// alive.
pub open spec fn same_but_alive(before: Seq<InputElf>, after: Seq<InputElf>) -> bool {
    &&& after.len() == before.len()
    &&& forall|p: int|
        0 <= p < before.len() ==> #[trigger] after[p] == (InputElf {
            is_alive: after[p].is_alive,
            ..before[p]
        })
}

/// Whether `after` is `before` after liveness marking: an object is alive
/// exactly if it can be reached from an object that was alive, and nothing
/// else has changed.
pub open spec fn marking(before: Seq<InputElf>, symbols: Seq<Symbol>, after: Seq<InputElf>) -> bool {
    &&& same_but_alive(before, after)
    &&& forall|p: int|
        0 <= p < before.len() ==> (#[trigger] after[p]).is_alive == reachable(before, symbols, p)
}

/// How many of the first `n` objects are not alive.
pub open spec fn dead_count(objects: Seq<InputElf>, n: int) -> int
    decreases n,
{
    if n <= 0 {
        0
    } else if objects[n - 1].is_alive {
        dead_count(objects, n - 1)
    } else {
        dead_count(objects, n - 1) + 1
    }
}

/// Every id in `referenced` is referred to by one of the records, and
/// every id that a record refers to is in `referenced`.
pub proof fn lemma_referenced(o: InputElf, symbols: Seq<Symbol>, n: int)
    ensures
        forall|z: int|
            0 <= z < referenced(o, symbols, n).len() ==> exists|j: int|
                0 <= j < n && #[trigger] refers_at(o, symbols, j) == Some(
                    #[trigger] referenced(o, symbols, n)[z],
                ),
        forall|j: int|
            0 <= j < n && (#[trigger] refers_at(o, symbols, j)) is Some ==> exists|z: int|
                0 <= z < referenced(o, symbols, n).len() && Some(
                    #[trigger] referenced(o, symbols, n)[z],
                ) == refers_at(o, symbols, j),
    decreases n,
{
    if n > 0 {
        lemma_referenced(o, symbols, n - 1);
        let prev = referenced(o, symbols, n - 1);
        let cur = referenced(o, symbols, n);
        assert forall|z: int| 0 <= z < cur.len() implies exists|j: int|
            0 <= j < n && #[trigger] refers_at(o, symbols, j) == Some(#[trigger] cur[z]) by {
            if z < prev.len() {
                assert(cur[z] == prev[z]);
                let j = choose|j: int|
                    0 <= j < n - 1 && #[trigger] refers_at(o, symbols, j) == Some(prev[z]);
                assert(refers_at(o, symbols, j) == Some(cur[z]));
            } else {
                assert(refers_at(o, symbols, n - 1) == Some(cur[z]));
            }
        }
        assert forall|j: int|
            0 <= j < n && (#[trigger] refers_at(o, symbols, j)) is Some implies exists|z: int|
            0 <= z < cur.len() && Some(#[trigger] cur[z]) == refers_at(o, symbols, j) by {
            if j < n - 1 {
                let z = choose|z: int|
                    0 <= z < prev.len() && Some(#[trigger] prev[z]) == refers_at(o, symbols, j);
                assert(cur[z] == prev[z]);
            } else {
                assert(Some(cur[cur.len() - 1]) == refers_at(o, symbols, j));
            }
        }
    }
}

/// What an object refers to does not depend on whether it is alive.
pub proof fn lemma_referenced_same(o: InputElf, p: InputElf, symbols: Seq<Symbol>, n: int)
    requires
        p.symbol_info == o.symbol_info,
        p.id == o.id,
    ensures
        referenced(p, symbols, n) == referenced(o, symbols, n),
    decreases n,
{
    if n > 0 {
        lemma_referenced_same(o, p, symbols, n - 1);
        assert(refers_at(p, symbols, n - 1) == refers_at(o, symbols, n - 1));
    }
}

/// An object that is alive is reached from itself.
pub proof fn lemma_root_reachable(objects: Seq<InputElf>, symbols: Seq<Symbol>, p: int)
    requires
        0 <= p < objects.len(),
        objects[p].is_alive,
    ensures
        reachable(objects, symbols, p),
{
    let path = seq![p];
    assert(is_path(objects, symbols, path));
    assert(path[0] == p && path.last() == p);
}

/// What is referred to by an object that can be reached can be reached.
pub proof fn lemma_reach_step(objects: Seq<InputElf>, symbols: Seq<Symbol>, a: int, b: int)
    requires
        reachable(objects, symbols, a),
        edge(objects, symbols, a, b),
    ensures
        reachable(objects, symbols, b),
{
    let path = choose|path: Seq<int>|
        #[trigger] is_path(objects, symbols, path) && objects[path[0]].is_alive && path.last()
            == a;
    let longer = path.push(b);
    assert forall|i: int| 0 <= i < longer.len() - 1 implies edge(
        objects,
        symbols,
        #[trigger] longer[i],
        longer[i + 1],
    ) by {
        if i < path.len() - 1 {
            assert(longer[i] == path[i] && longer[i + 1] == path[i + 1]);
        } else {
            assert(longer[i] == a && longer[i + 1] == b);
        }
    }
    assert forall|i: int| 0 <= i < longer.len() implies 0 <= #[trigger] longer[i]
        < objects.len() by {
        if i < path.len() {
            assert(longer[i] == path[i]);
        }
    }
    assert(is_path(objects, symbols, longer));
    assert(longer[0] == path[0]);
    assert(longer.last() == b);
}

/// Whether the objects marked alive in `after` hold every object that was
/// alive in `before`, and with each object every object it refers to.
pub open spec fn closed(before: Seq<InputElf>, symbols: Seq<Symbol>, after: Seq<InputElf>) -> bool {
    &&& after.len() == before.len()
    &&& forall|p: int| 0 <= p < before.len() && (#[trigger] before[p]).is_alive ==>
        after[p].is_alive
    &&& forall|a: int, b: int|
        0 <= a < before.len() && after[a].is_alive && #[trigger] edge(before, symbols, a, b)
            ==> after[b].is_alive
}

/// A set of objects that holds the live ones and is closed under
/// reference holds every object on a path from a live one.
pub proof fn lemma_closed_holds_path(
    before: Seq<InputElf>,
    symbols: Seq<Symbol>,
    after: Seq<InputElf>,
    path: Seq<int>,
    i: int,
)
    requires
        closed(before, symbols, after),
        is_path(before, symbols, path),
        before[path[0]].is_alive,
        0 <= i < path.len(),
    ensures
        after[path[i]].is_alive,
    decreases i,
{
    if i > 0 {
        lemma_closed_holds_path(before, symbols, after, path, i - 1);
        assert(edge(before, symbols, path[i - 1], path[i - 1 + 1]));
    }
}

/// A set of objects that holds the live ones and is closed under
/// reference holds every object that can be reached.
pub proof fn lemma_closed_holds_reachable(
    before: Seq<InputElf>,
    symbols: Seq<Symbol>,
    after: Seq<InputElf>,
    b: int,
)
    requires
        closed(before, symbols, after),
        reachable(before, symbols, b),
    ensures
        after[b].is_alive,
{
    let path = choose|path: Seq<int>|
        #[trigger] is_path(before, symbols, path) && before[path[0]].is_alive && path.last() == b;
    lemma_closed_holds_path(before, symbols, after, path, path.len() - 1);
}

/// Marking one more object alive makes one object fewer that is not.
pub proof fn lemma_dead_count_mark(before: Seq<InputElf>, after: Seq<InputElf>, q: int, n: int)
    requires
        0 <= n <= before.len(),
        after.len() == before.len(),
        0 <= q < before.len(),
        !before[q].is_alive,
        after[q].is_alive,
        forall|p: int| 0 <= p < before.len() && p != q ==> (#[trigger] after[p]).is_alive
            == before[p].is_alive,
    ensures
        dead_count(after, n) == dead_count(before, n) - if q < n {
            1int
        } else {
            0int
        },
        dead_count(before, n) >= 0,
    decreases n,
{
    if n > 0 {
        lemma_dead_count_mark(before, after, q, n - 1);
        if n - 1 != q {
            assert(after[n - 1].is_alive == before[n - 1].is_alive);
        }
    }
}

/// The number of objects that are not alive is not negative.
pub proof fn lemma_dead_count_bound(objects: Seq<InputElf>, n: int)
    ensures
        dead_count(objects, n) >= 0,
    decreases n,
{
    if n > 0 {
        lemma_dead_count_bound(objects, n - 1);
    }
}

/// Whether the ids rise along the list.
pub open spec fn ids_rise(objects: Seq<InputElf>) -> bool {
    forall|p: int, q: int|
        0 <= p < q < objects.len() ==> (#[trigger] objects[p]).id < (#[trigger] objects[q]).id
}

/// The position of the object with the id `id`, if there is one.
pub open spec fn position_of(objects: Seq<InputElf>, id: usize) -> Option<int> {
    if exists|p: int| 0 <= p < objects.len() && (#[trigger] objects[p]).id == id {
        Some(choose|p: int| 0 <= p < objects.len() && (#[trigger] objects[p]).id == id)
    } else {
        None
    }
}

/// Where the ids rise, the object at `p` is the one found under its id.
pub proof fn lemma_position_of(objects: Seq<InputElf>, p: int)
    requires
        ids_rise(objects),
        0 <= p < objects.len(),
    ensures
        position_of(objects, objects[p].id) == Some(p),
{
    let q = choose|q: int| 0 <= q < objects.len() && (#[trigger] objects[q]).id == objects[p].id;
    if q < p {
        assert(objects[q].id < objects[p].id);
    }
    if p < q {
        assert(objects[p].id < objects[q].id);
    }
}

/// The position of the object with the id `id`.
pub fn find_position(objects: &Vec<InputElf>, id: usize) -> (r: Option<usize>)
    requires
        ids_rise(objects@),
    ensures
        match r {
            Some(p) => position_of(objects@, id) == Some(p as int) && p < objects@.len()
                && objects@[p as int].id == id,
            None => position_of(objects@, id) is None,
        },
{
    let mut p: usize = 0;
    while p < objects.len()
        invariant
            ids_rise(objects@),
            p <= objects@.len(),
            forall|q: int| 0 <= q < p ==> (#[trigger] objects@[q]).id != id,
        decreases objects@.len() - p,
    {
        if objects[p].id == id {
            proof {
                lemma_position_of(objects@, p as int);
            }
            return Some(p);
        }
        p += 1;
    }
    None
}

/// Whether every object has its symbols in place in `symbols`.
pub open spec fn all_named(objects: Seq<InputElf>, symbols: Seq<Symbol>) -> bool {
    forall|p: int| 0 <= p < objects.len() ==> (#[trigger] objects[p]).symbols_ingested(symbols)
}

/// Whether the position `a` waits in the queue from `head` on.
pub open spec fn pending(queue: Seq<usize>, head: int, a: int) -> bool {
    exists|x: int| head <= x < queue.len() && #[trigger] queue[x] == a
}

/// Whether every object that the object at `a` refers to is alive.
pub open spec fn served(
    before: Seq<InputElf>,
    symbols: Seq<Symbol>,
    objects: Seq<InputElf>,
    a: int,
) -> bool {
    forall|b: int| #[trigger] edge(before, symbols, a, b) ==> objects[b].is_alive
}

/// Whether every position in the queue is that of an object that is alive.
pub open spec fn queued_alive(objects: Seq<InputElf>, queue: Seq<usize>) -> bool {
    forall|x: int|
        0 <= x < queue.len() ==> (#[trigger] queue[x]) < objects.len()
            && objects[queue[x] as int].is_alive
}

/// Whether every object that is alive can be reached from an object that
/// was alive in `before`.
#[verifier::opaque]
pub open spec fn all_reached(
    before: Seq<InputElf>,
    symbols: Seq<Symbol>,
    objects: Seq<InputElf>,
) -> bool {
    forall|q: int|
        0 <= q < objects.len() && (#[trigger] objects[q]).is_alive ==> reachable(before, symbols, q)
}

/// Whether every live object other than the one at `skip` waits in the
/// queue from `head` on, or has all that it refers to alive.
#[verifier::opaque]
pub open spec fn all_settled(
    before: Seq<InputElf>,
    symbols: Seq<Symbol>,
    objects: Seq<InputElf>,
    queue: Seq<usize>,
    head: int,
    skip: int,
) -> bool {
    forall|a: int|
        0 <= a < objects.len() && a != skip && (#[trigger] objects[a]).is_alive ==> pending(
            queue,
            head,
            a,
        ) || served(before, symbols, objects, a)
}

/// Whether every object that was alive in `before` is alive.
pub open spec fn roots_kept(before: Seq<InputElf>, objects: Seq<InputElf>) -> bool {
    forall|q: int| 0 <= q < before.len() && (#[trigger] before[q]).is_alive ==> objects[q].is_alive
}

/// The state of liveness marking that started from `before`, with the
/// queue served up to `head`: only liveness has changed; what was alive is
/// alive; what is alive can be reached, and is in the queue; and every live
/// object other than the one at `skip` waits in the queue or has all that it
/// refers to alive.
pub open spec fn spreading(
    before: Seq<InputElf>,
    symbols: Seq<Symbol>,
    objects: Seq<InputElf>,
    queue: Seq<usize>,
    head: int,
    skip: int,
) -> bool {
    &&& same_but_alive(before, objects)
    &&& 0 <= head <= queue.len()
    &&& queued_alive(objects, queue)
    &&& all_reached(before, symbols, objects)
    &&& roots_kept(before, objects)
    &&& all_settled(before, symbols, objects, queue, head, skip)
}

/// Whether every object with one of the first `y` ids of `refs` is alive.
pub open spec fn woken(before: Seq<InputElf>, objects: Seq<InputElf>, refs: Seq<usize>, y: int) -> bool {
    forall|z: int, b: int|
        0 <= z < y && 0 <= b < before.len() && (#[trigger] before[b]).id == (#[trigger] refs[z])
            ==> objects[b].is_alive
}

/// Whether `now` and `queue` are `cur` and `held` after the object with
/// the id `id` was woken: if there is one and it was not alive, it is alive
/// and its position is at the end of the queue; else nothing has changed.
pub open spec fn woke(
    cur: Seq<InputElf>,
    held: Seq<usize>,
    id: usize,
    now: Seq<InputElf>,
    queue: Seq<usize>,
) -> bool {
    match position_of(cur, id) {
        Some(q) => if cur[q].is_alive {
            now == cur && queue == held
        } else {
            now == cur.update(q, InputElf { is_alive: true, ..cur[q] }) && queue.len()
                == held.len() + 1 && queue.last() == q && queue.drop_last() == held
        },
        None => now == cur && queue == held,
    }
}

/// The positions of those of the first `n` objects that are alive, in
/// order.
pub open spec fn alive_positions(objects: Seq<InputElf>, n: int) -> Seq<usize>
    decreases n,
{
    if n <= 0 {
        Seq::empty()
    } else if objects[n - 1].is_alive {
        alive_positions(objects, n - 1).push((n - 1) as usize)
    } else {
        alive_positions(objects, n - 1)
    }
}

/// The positions of the live objects are positions of live objects, and
/// the position of every live object is among them.
pub proof fn lemma_alive_positions(objects: Seq<InputElf>, n: int)
    requires
        n <= objects.len(),
        objects.len() <= usize::MAX,
    ensures
        forall|x: int|
            0 <= x < alive_positions(objects, n).len() ==> (#[trigger] alive_positions(
                objects,
                n,
            )[x]) < n && objects[alive_positions(objects, n)[x] as int].is_alive,
        forall|q: int|
            0 <= q < n && (#[trigger] objects[q]).is_alive ==> pending(
                alive_positions(objects, n),
                0,
                q,
            ),
    decreases n,
{
    if n > 0 {
        lemma_alive_positions(objects, n - 1);
        let prev = alive_positions(objects, n - 1);
        let cur = alive_positions(objects, n);
        assert forall|x: int| 0 <= x < cur.len() implies (#[trigger] cur[x]) < n
            && objects[cur[x] as int].is_alive by {
            if x < prev.len() {
                assert(cur[x] == prev[x]);
            }
        }
        assert forall|q: int| 0 <= q < n && (#[trigger] objects[q]).is_alive implies pending(
            cur,
            0,
            q,
        ) by {
            if q < n - 1 {
                assert(pending(prev, 0, q));
                let x = choose|x: int| 0 <= x < prev.len() && #[trigger] prev[x] == q;
                assert(cur[x] == q);
            } else {
                assert(cur[cur.len() - 1] == q);
            }
        }
    }
}

/// The positions of the objects that are alive, in order.
pub fn live_positions(objects: &Vec<InputElf>) -> (queue: Vec<usize>)
    ensures
        queue@ == alive_positions(objects@, objects@.len() as int),
        objects@.len() <= usize::MAX,
{
    let n: usize = objects.len();
    let mut queue: Vec<usize> = Vec::new();
    let mut p: usize = 0;
    while p < n
        invariant
            p <= n,
            n == objects@.len(),
            queue@ == alive_positions(objects@, p as int),
        decreases n - p,
    {
        if objects[p].is_alive {
            queue.push(p);
        }
        p += 1;
    }
    queue
}

/// Wakes the object with the id `id`: if there is one and it is not alive,
/// it is marked alive and its position is put at the end of the queue.
pub fn wake(objects: &mut Vec<InputElf>, queue: &mut Vec<usize>, id: usize)
    requires
        ids_rise(old(objects)@),
    ensures
        woke(old(objects)@, old(queue)@, id, final(objects)@, final(queue)@),
{
    match find_position(objects, id) {
        Some(q) => {
            if !objects[q].is_alive {
                objects[q].is_alive = true;
                queue.push(q);
                assert(queue@.drop_last() =~= old(queue)@);
                assert(objects@ =~= old(objects)@.update(
                    q as int,
                    InputElf { is_alive: true, ..old(objects)@[q as int] },
                ));
            }
        },
        None => {},
    }
}

/// Marking starts in a state of marking, with nothing served yet.
pub proof fn lemma_spread_start(before: Seq<InputElf>, symbols: Seq<Symbol>, queue: Seq<usize>)
    requires
        queued_alive(before, queue),
        forall|q: int|
            0 <= q < before.len() && (#[trigger] before[q]).is_alive ==> pending(queue, 0, q),
    ensures
        spreading(before, symbols, before, queue, 0, -1),
{
    reveal(all_reached);
    reveal(all_settled);
    assert forall|q: int| 0 <= q < before.len() && (#[trigger] before[q]).is_alive implies
        reachable(
        before,
        symbols,
        q,
    ) by {
        lemma_root_reachable(before, symbols, q);
    }
}

/// Taking the head of the queue leaves a state of marking in which the
/// object taken is the one that is not served yet.
pub proof fn lemma_spread_take(
    before: Seq<InputElf>,
    symbols: Seq<Symbol>,
    objects: Seq<InputElf>,
    queue: Seq<usize>,
    head: int,
)
    requires
        spreading(before, symbols, objects, queue, head, -1),
        head < queue.len(),
    ensures
        spreading(before, symbols, objects, queue, head + 1, queue[head] as int),
        queue[head] < objects.len(),
        objects[queue[head] as int].is_alive,
{
    reveal(all_settled);
    let a = queue[head] as int;
    assert forall|c: int|
        0 <= c < objects.len() && c != a && (#[trigger] objects[c]).is_alive implies pending(
        queue,
        head + 1,
        c,
    ) || served(before, symbols, objects, c) by {
        if pending(queue, head, c) {
            let x = choose|x: int| head <= x < queue.len() && #[trigger] queue[x] == c;
            assert(x != head);
        }
    }
}

/// Whether `now` is `cur` with the object at `q`, which was not alive,
/// marked alive.
pub open spec fn lit(cur: Seq<InputElf>, now: Seq<InputElf>, q: int) -> bool {
    &&& now.len() == cur.len()
    &&& 0 <= q < cur.len()
    &&& !cur[q].is_alive
    &&& now[q] == (InputElf { is_alive: true, ..cur[q] })
    &&& forall|p: int| 0 <= p < cur.len() && p != q ==> #[trigger] now[p] == cur[p]
}

/// Where only liveness has changed, the ids rise as they did.
pub proof fn lemma_ids_rise_kept(before: Seq<InputElf>, cur: Seq<InputElf>)
    requires
        ids_rise(before),
        same_but_alive(before, cur),
    ensures
        ids_rise(cur),
{
    assert forall|p: int, q: int| 0 <= p < q < cur.len() implies (#[trigger] cur[p]).id < (
    #[trigger] cur[q]).id by {
        assert(cur[p].id == before[p].id);
        assert(cur[q].id == before[q].id);
    }
}

/// Marking one more object alive changes nothing but liveness.
pub proof fn lemma_lit_same(before: Seq<InputElf>, cur: Seq<InputElf>, now: Seq<InputElf>, q: int)
    requires
        same_but_alive(before, cur),
        roots_kept(before, cur),
        lit(cur, now, q),
    ensures
        same_but_alive(before, now),
        roots_kept(before, now),
        forall|p: int| 0 <= p < cur.len() && (#[trigger] cur[p]).is_alive ==> now[p].is_alive,
        now[q].is_alive,
{
    assert forall|p: int| 0 <= p < before.len() implies #[trigger] now[p] == (InputElf {
        is_alive: now[p].is_alive,
        ..before[p]
    }) by {
        if p != q {
            assert(now[p] == cur[p]);
        }
    }
    assert forall|p: int| 0 <= p < cur.len() && (#[trigger] cur[p]).is_alive implies
        now[p].is_alive by {
        assert(now[p] == cur[p]);
    }
    assert forall|p: int| 0 <= p < before.len() && (#[trigger] before[p]).is_alive implies
        now[p].is_alive by {
        assert(cur[p].is_alive);
    }
}

/// The queue with the position of the newly marked object at its end
/// holds positions of live objects only.
pub proof fn lemma_lit_queue(cur: Seq<InputElf>, held: Seq<usize>, now: Seq<InputElf>, q: usize)
    requires
        queued_alive(cur, held),
        lit(cur, now, q as int),
    ensures
        queued_alive(now, held.push(q)),
{
    let queue = held.push(q);
    assert forall|x: int| 0 <= x < queue.len() implies (#[trigger] queue[x]) < now.len()
        && now[queue[x] as int].is_alive by {
        if x < held.len() {
            assert(queue[x] == held[x]);
            assert(cur[held[x] as int].is_alive);
            assert(now[held[x] as int] == cur[held[x] as int]);
        }
    }
}

/// The newly marked object can be reached, so all live objects can.
pub proof fn lemma_lit_reached(
    before: Seq<InputElf>,
    symbols: Seq<Symbol>,
    cur: Seq<InputElf>,
    now: Seq<InputElf>,
    q: int,
)
    requires
        all_reached(before, symbols, cur),
        lit(cur, now, q),
        reachable(before, symbols, q),
    ensures
        all_reached(before, symbols, now),
{
    reveal(all_reached);
    assert forall|p: int| 0 <= p < now.len() && (#[trigger] now[p]).is_alive implies reachable(
        before,
        symbols,
        p,
    ) by {
        if p != q {
            assert(now[p] == cur[p]);
            assert(cur[p].is_alive);
        }
    }
}

/// The newly marked object waits in the queue, and every other live
/// object waits or is served as before.
pub proof fn lemma_lit_settled(
    before: Seq<InputElf>,
    symbols: Seq<Symbol>,
    cur: Seq<InputElf>,
    held: Seq<usize>,
    head: int,
    a: int,
    now: Seq<InputElf>,
    q: usize,
)
    requires
        all_settled(before, symbols, cur, held, head, a),
        lit(cur, now, q as int),
        0 <= head <= held.len(),
        cur.len() == before.len(),
    ensures
        all_settled(before, symbols, now, held.push(q), head, a),
{
    reveal(all_settled);
    let queue = held.push(q);
    assert(queue[held.len() as int] == q);
    assert forall|c: int|
        0 <= c < now.len() && c != a && (#[trigger] now[c]).is_alive implies pending(queue, head, c)
        || served(before, symbols, now, c) by {
        if c == q {
            assert(queue[held.len() as int] == c);
        } else {
            assert(now[c] == cur[c]);
            assert(cur[c].is_alive);
            if pending(held, head, c) {
                let x = choose|x: int| head <= x < held.len() && #[trigger] held[x] == c;
                assert(queue[x] == c);
            } else {
                assert(served(before, symbols, cur, c));
                assert forall|b: int| #[trigger] edge(before, symbols, c, b) implies
                    now[b].is_alive by {
                    assert(cur[b].is_alive);
                    if b != q {
                        assert(now[b] == cur[b]);
                    }
                }
            }
        }
    }
}

/// After the object of the id `refs[y]` was woken, or found alive, or not
/// found, every object with one of the first `y + 1` ids is alive.
pub proof fn lemma_woken_next(
    before: Seq<InputElf>,
    cur: Seq<InputElf>,
    now: Seq<InputElf>,
    refs: Seq<usize>,
    y: int,
)
    requires
        ids_rise(cur),
        same_but_alive(before, cur),
        now.len() == cur.len(),
        0 <= y < refs.len(),
        woken(before, cur, refs, y),
        forall|p: int| 0 <= p < cur.len() && (#[trigger] cur[p]).is_alive ==> now[p].is_alive,
        position_of(cur, refs[y]) matches Some(q) ==> now[q].is_alive,
    ensures
        woken(before, now, refs, y + 1),
{
    assert forall|z: int, b: int|
        0 <= z < y + 1 && 0 <= b < before.len() && (#[trigger] before[b]).id == (
        #[trigger] refs[z]) implies now[b].is_alive by {
        if z < y {
            assert(cur[b].is_alive);
        } else {
            assert(cur[b].id == before[b].id);
            lemma_position_of(cur, b);
        }
    }
}

/// The object at `a` refers to the object whose id is one of those it
/// refers to.
pub proof fn lemma_edge_of_reference(
    before: Seq<InputElf>,
    symbols: Seq<Symbol>,
    a: int,
    refs: Seq<usize>,
    y: int,
    q: int,
)
    requires
        0 <= a < before.len(),
        0 <= q < before.len(),
        refs == referenced(before[a], symbols, global_count(before[a])),
        0 <= y < refs.len(),
        before[q].id == refs[y],
    ensures
        edge(before, symbols, a, q),
{
    lemma_referenced(before[a], symbols, global_count(before[a]));
    let j = choose|j: int|
        0 <= j < global_count(before[a]) && #[trigger] refers_at(before[a], symbols, j) == Some(
            refs[y],
        );
    assert(refers_at(before[a], symbols, j) == Some(before[q].id));
}

/// Waking the object of the next id keeps the state of marking, and the
/// number of objects that are not alive and the length of the queue together
/// stay what they were.
pub proof fn lemma_spread_wake(
    before: Seq<InputElf>,
    symbols: Seq<Symbol>,
    cur: Seq<InputElf>,
    held: Seq<usize>,
    head: int,
    a: int,
    refs: Seq<usize>,
    y: int,
    now: Seq<InputElf>,
    queue: Seq<usize>,
)
    requires
        ids_rise(before),
        spreading(before, symbols, cur, held, head, a),
        0 <= a < cur.len(),
        cur[a].is_alive,
        refs == referenced(before[a], symbols, global_count(before[a])),
        0 <= y < refs.len(),
        woken(before, cur, refs, y),
        woke(cur, held, refs[y], now, queue),
    ensures
        spreading(before, symbols, now, queue, head, a),
        now[a].is_alive,
        woken(before, now, refs, y + 1),
        dead_count(now, now.len() as int) + queue.len() == dead_count(cur, cur.len() as int)
            + held.len(),
{
    let id = refs[y];
    lemma_ids_rise_kept(before, cur);
    if position_of(cur, id) is Some && !cur[position_of(cur, id)->Some_0].is_alive {
        let q = position_of(cur, id)->Some_0;
        let qu = queue.last();
        assert(queue =~= held.push(qu)) by {
            assert forall|x: int| 0 <= x < held.len() implies queue[x] == held[x] by {
                assert(queue.drop_last()[x] == queue[x]);
            }
        }
        assert(lit(cur, now, q));
        lemma_lit_same(before, cur, now, q);
        lemma_dead_count_mark(cur, now, q, cur.len() as int);
        assert(before[q].id == cur[q].id);
        lemma_edge_of_reference(before, symbols, a, refs, y, q);
        assert(reachable(before, symbols, a)) by {
            reveal(all_reached);
        }
        lemma_reach_step(before, symbols, a, q);
        lemma_lit_reached(before, symbols, cur, now, q);
        if qu as int == q {
            lemma_lit_queue(cur, held, now, qu);
            lemma_lit_settled(before, symbols, cur, held, head, a, now, qu);
        }
        lemma_woken_next(before, cur, now, refs, y);
    } else {
        assert(now == cur && queue == held);
        lemma_woken_next(before, cur, now, refs, y);
    }
}

/// Once the object of every id that the object at `a` refers to has been
/// woken, the object at `a` is served.
pub proof fn lemma_spread_served(
    before: Seq<InputElf>,
    symbols: Seq<Symbol>,
    objects: Seq<InputElf>,
    queue: Seq<usize>,
    head: int,
    a: int,
    refs: Seq<usize>,
)
    requires
        spreading(before, symbols, objects, queue, head, a),
        0 <= a < objects.len(),
        refs == referenced(before[a], symbols, global_count(before[a])),
        woken(before, objects, refs, refs.len() as int),
    ensures
        spreading(before, symbols, objects, queue, head, -1),
{
    reveal(all_settled);
    lemma_referenced(before[a], symbols, global_count(before[a]));
    assert(served(before, symbols, objects, a)) by {
        assert forall|b: int| #[trigger] edge(before, symbols, a, b) implies
            objects[b].is_alive by {
            let j = choose|j: int| #[trigger] refers_at(before[a], symbols, j) == Some(before[b].id);
            assert(0 <= j < global_count(before[a]));
            let z = choose|z: int|
                0 <= z < refs.len() && Some(#[trigger] refs[z]) == refers_at(before[a], symbols, j);
            assert(before[b].id == refs[z]);
        }
    }
}

/// When the queue has been served to its end, the objects that are alive
/// are exactly those that can be reached.
pub proof fn lemma_spread_done(
    before: Seq<InputElf>,
    symbols: Seq<Symbol>,
    objects: Seq<InputElf>,
    queue: Seq<usize>,
)
    requires
        spreading(before, symbols, objects, queue, queue.len() as int, -1),
    ensures
        marking(before, symbols, objects),
{
    reveal(all_settled);
    reveal(all_reached);
    assert(closed(before, symbols, objects)) by {
        assert forall|a: int, b: int|
            0 <= a < before.len() && objects[a].is_alive && #[trigger] edge(
                before,
                symbols,
                a,
                b,
            ) implies objects[b].is_alive by {
            assert(!pending(queue, queue.len() as int, a));
            assert(served(before, symbols, objects, a));
        }
    }
    assert forall|q: int| 0 <= q < before.len() implies (#[trigger] objects[q]).is_alive
        == reachable(before, symbols, q) by {
        if reachable(before, symbols, q) {
            lemma_closed_holds_reachable(before, symbols, objects, q);
        }
    }
}

/// Serves the queue to its end: each object in it wakes the objects that
/// it refers to, and those that were not alive join the queue.
pub fn spread(objects: &mut Vec<InputElf>, symbols: &Vec<Symbol>, queue: Vec<usize>)
    requires
        ids_rise(old(objects)@),
        all_named(old(objects)@, symbols@),
        queued_alive(old(objects)@, queue@),
        forall|q: int|
            0 <= q < old(objects)@.len() && (#[trigger] old(objects)@[q]).is_alive ==> pending(
                queue@,
                0,
                q,
            ),
    ensures
        marking(old(objects)@, symbols@, final(objects)@),
{
    let mut queue = queue;
    let ghost before = objects@;
    let mut head: usize = 0;
    proof {
        lemma_spread_start(before, symbols@, queue@);
        lemma_dead_count_bound(before, before.len() as int);
    }
    while head < queue.len()
        invariant
            before == old(objects)@,
            ids_rise(before),
            all_named(before, symbols@),
            spreading(before, symbols@, objects@, queue@, head as int, -1),
            dead_count(objects@, objects@.len() as int) >= 0,
        decreases dead_count(objects@, objects@.len() as int) + queue@.len() - head,
    {
        proof {
            lemma_spread_take(before, symbols@, objects@, queue@, head as int);
        }
        let a: usize = queue[head];
        head += 1;
        proof {
            assert(before[a as int].symbols_ingested(symbols@));
            lemma_referenced_same(
                before[a as int],
                objects@[a as int],
                symbols@,
                global_count(before[a as int]),
            );
        }
        let refs = objects[a].mark_live_objects(symbols);
        let ghost sum = dead_count(objects@, objects@.len() as int) + queue@.len();
        let mut y: usize = 0;
        while y < refs.len()
            invariant
                before == old(objects)@,
                ids_rise(before),
                a < objects@.len(),
                objects@[a as int].is_alive,
                refs@ == referenced(before[a as int], symbols@, global_count(before[a as int])),
                y <= refs@.len(),
                spreading(before, symbols@, objects@, queue@, head as int, a as int),
                woken(before, objects@, refs@, y as int),
                dead_count(objects@, objects@.len() as int) >= 0,
                dead_count(objects@, objects@.len() as int) + queue@.len() == sum,
            decreases refs@.len() - y,
        {
            let ghost cur = objects@;
            let ghost held = queue@;
            proof {
                assert(ids_rise(cur)) by {
                    assert forall|p: int, q: int| 0 <= p < q < cur.len() implies (
                    #[trigger] cur[p]).id < (#[trigger] cur[q]).id by {
                        assert(cur[p].id == before[p].id);
                        assert(cur[q].id == before[q].id);
                    }
                }
            }
            wake(objects, &mut queue, refs[y]);
            proof {
                lemma_spread_wake(
                    before,
                    symbols@,
                    cur,
                    held,
                    head as int,
                    a as int,
                    refs@,
                    y as int,
                    objects@,
                    queue@,
                );
                lemma_dead_count_bound(objects@, objects@.len() as int);
            }
            y += 1;
        }
        proof {
            lemma_spread_served(before, symbols@, objects@, queue@, head as int, a as int, refs@);
        }
    }
    proof {
        lemma_spread_done(before, symbols@, objects@, queue@);
    }
}

/// The objects among the first `n` that are alive, in order.
pub open spec fn survivors(objects: Seq<InputElf>, n: int) -> Seq<InputElf>
    decreases n,
{
    if n <= 0 {
        Seq::empty()
    } else if objects[n - 1].is_alive {
        survivors(objects, n - 1).push(objects[n - 1])
    } else {
        survivors(objects, n - 1)
    }
}

/// Whether one of the first `n` global records of the object has the
/// handle `h`.
pub open spec fn holds(o: InputElf, h: int, n: int) -> bool {
    o.symbol_info matches Some(info) && exists|j: int|
        0 <= j < n && j < info.global_symbols@.len() && #[trigger] info.global_symbols@[j] == h
}

/// Whether the object gives up the symbol `s` with the handle `h` when it
/// is dropped: it holds the symbol among its first `n` global records, and
/// it is the object that defines the symbol.
pub open spec fn gives_up(o: InputElf, s: Symbol, h: int, n: int) -> bool {
    holds(o, h, n) && s.elf == Some(o.id)
}

/// Whether the symbol `s` with the handle `h` dies with one of the first
/// `n` objects: one of them is not alive and gives the symbol up.
pub open spec fn dies(objects: Seq<InputElf>, s: Symbol, h: int, n: int) -> bool {
    exists|p: int|
        0 <= p < n && p < objects.len() && !(#[trigger] objects[p]).is_alive && gives_up(
            objects[p],
            s,
            h,
            global_count(objects[p]),
        )
}

/// The symbol `s`, no longer alive if `dead` holds, and as it was if not.
pub open spec fn killed(s: Symbol, dead: bool) -> Symbol {
    Symbol { is_alive: s.is_alive && !dead, ..s }
}

/// The interned handles among the first `n` whose symbols are alive, in
/// order.
pub open spec fn live_handles(interned: Seq<usize>, symbols: Seq<Symbol>, n: int) -> Seq<usize>
    decreases n,
{
    if n <= 0 {
        Seq::empty()
    } else if symbols[interned[n - 1] as int].is_alive {
        live_handles(interned, symbols, n - 1).push(interned[n - 1])
    } else {
        live_handles(interned, symbols, n - 1)
    }
}

/// Whether `after` is the table of symbols `before` after the objects of
/// `objects` that are not alive have given up their symbols: a symbol that
/// such an object defines and holds is no longer alive, and nothing else has
/// changed.
pub open spec fn clearing(objects: Seq<InputElf>, before: Seq<Symbol>, after: Seq<Symbol>) -> bool {
    &&& after.len() == before.len()
    &&& forall|h: int|
        0 <= h < before.len() ==> #[trigger] after[h] == killed(
            before[h],
            dies(objects, before[h], h, objects.len() as int),
        )
}

/// Whether `x` is the object at `p`, and is alive.
pub open spec fn alive_at(objects: Seq<InputElf>, p: int, x: InputElf) -> bool {
    0 <= p < objects.len() && objects[p] == x && x.is_alive
}

/// Whether `x` is one of the first `n` objects, and is alive.
pub open spec fn alive_among(objects: Seq<InputElf>, n: int, x: InputElf) -> bool {
    exists|p: int| p < n && #[trigger] alive_at(objects, p, x)
}

/// Whether `x` is one of the objects of `kept`.
pub open spec fn kept_in(kept: Seq<InputElf>, x: InputElf) -> bool {
    exists|i: int| 0 <= i < kept.len() && #[trigger] kept[i] == x
}

/// Every survivor is one of the objects, and is alive; and every object
/// that is alive survives.
pub proof fn lemma_survivors(objects: Seq<InputElf>, n: int)
    requires
        n <= objects.len(),
    ensures
        forall|i: int|
            0 <= i < survivors(objects, n).len() ==> alive_among(
                objects,
                n,
                #[trigger] survivors(objects, n)[i],
            ),
        forall|p: int|
            0 <= p < n && (#[trigger] objects[p]).is_alive ==> kept_in(
                survivors(objects, n),
                objects[p],
            ),
    decreases n,
{
    if n > 0 {
        lemma_survivors(objects, n - 1);
        let prev = survivors(objects, n - 1);
        let cur = survivors(objects, n);
        assert forall|i: int| 0 <= i < cur.len() implies
            alive_among(objects, n, #[trigger] cur[i]) by {
            if i < prev.len() {
                assert(cur[i] == prev[i]);
                assert(alive_among(objects, n - 1, prev[i]));
                let p = choose|p: int| p < n - 1 && #[trigger] alive_at(objects, p, prev[i]);
                assert(alive_at(objects, p, cur[i]));
            } else {
                assert(alive_at(objects, n - 1, cur[i]));
            }
        }
        assert forall|p: int| 0 <= p < n && (#[trigger] objects[p]).is_alive implies kept_in(
            cur,
            objects[p],
        ) by {
            if p < n - 1 {
                assert(kept_in(prev, objects[p]));
                let i = choose|i: int| 0 <= i < prev.len() && #[trigger] prev[i] == objects[p];
                assert(cur[i] == objects[p]);
            } else {
                assert(cur[cur.len() - 1] == objects[p]);
            }
        }
    }
}

/// The ids of the survivors rise as the ids of the objects do.
pub proof fn lemma_survivors_rise(objects: Seq<InputElf>, n: int)
    requires
        n <= objects.len(),
        ids_rise(objects),
    ensures
        ids_rise(survivors(objects, n)),
    decreases n,
{
    if n > 0 {
        lemma_survivors_rise(objects, n - 1);
        lemma_survivors(objects, n - 1);
        let prev = survivors(objects, n - 1);
        let cur = survivors(objects, n);
        if objects[n - 1].is_alive {
            assert forall|p: int, q: int| 0 <= p < q < cur.len() implies (#[trigger] cur[p]).id < (
            #[trigger] cur[q]).id by {
                assert(cur[p] == prev[p]);
                if q < prev.len() {
                    assert(cur[q] == prev[q]);
                } else {
                    assert(alive_among(objects, n - 1, prev[p]));
                    let w = choose|w: int| w < n - 1 && #[trigger] alive_at(objects, w, prev[p]);
                    assert(objects[w].id < objects[n - 1].id);
                }
            }
        }
    }
}

/// Where every object is alive, all of them survive.
pub proof fn lemma_survivors_all(objects: Seq<InputElf>, n: int)
    requires
        0 <= n <= objects.len(),
        forall|p: int| 0 <= p < n ==> (#[trigger] objects[p]).is_alive,
    ensures
        survivors(objects, n) == objects.take(n),
    decreases n,
{
    if n > 0 {
        lemma_survivors_all(objects, n - 1);
        assert(objects[n - 1].is_alive);
        assert(objects.take(n - 1).push(objects[n - 1]) =~= objects.take(n));
    } else {
        assert(objects.take(0) =~= Seq::<InputElf>::empty());
    }
}

/// Whether `h` is one of the first `n` handles, and its symbol is alive.
pub open spec fn live_among(interned: Seq<usize>, symbols: Seq<Symbol>, n: int, h: usize) -> bool {
    exists|k: int|
        0 <= k < n && k < interned.len() && #[trigger] interned[k] == h && symbols[h as int].is_alive
}

/// Whether `h` is one of the handles of `kept`.
pub open spec fn handle_in(kept: Seq<usize>, h: usize) -> bool {
    exists|i: int| 0 <= i < kept.len() && #[trigger] kept[i] == h
}

/// Every handle that is kept is one of the handles, of a live symbol, and
/// every handle of a live symbol is kept.
pub proof fn lemma_live_handles(interned: Seq<usize>, symbols: Seq<Symbol>, n: int)
    requires
        n <= interned.len(),
    ensures
        forall|i: int|
            0 <= i < live_handles(interned, symbols, n).len() ==> live_among(
                interned,
                symbols,
                n,
                #[trigger] live_handles(interned, symbols, n)[i],
            ),
        forall|k: int|
            0 <= k < n && symbols[(#[trigger] interned[k]) as int].is_alive ==> handle_in(
                live_handles(interned, symbols, n),
                interned[k],
            ),
    decreases n,
{
    if n > 0 {
        lemma_live_handles(interned, symbols, n - 1);
        let prev = live_handles(interned, symbols, n - 1);
        let cur = live_handles(interned, symbols, n);
        assert forall|i: int| 0 <= i < cur.len() implies live_among(
            interned,
            symbols,
            n,
            #[trigger] cur[i],
        ) by {
            if i < prev.len() {
                assert(cur[i] == prev[i]);
                assert(live_among(interned, symbols, n - 1, prev[i]));
                let k = choose|k: int|
                    0 <= k < n - 1 && k < interned.len() && #[trigger] interned[k] == prev[i]
                        && symbols[prev[i] as int].is_alive;
                assert(interned[k] == cur[i]);
            } else {
                assert(interned[n - 1] == cur[i]);
            }
        }
        assert forall|k: int|
            0 <= k < n && symbols[(#[trigger] interned[k]) as int].is_alive implies handle_in(
            cur,
            interned[k],
        ) by {
            if k < n - 1 {
                assert(handle_in(prev, interned[k]));
                let i = choose|i: int| 0 <= i < prev.len() && #[trigger] prev[i] == interned[k];
                assert(cur[i] == interned[k]);
            } else {
                assert(cur[cur.len() - 1] == interned[k]);
            }
        }
    }
}

/// Where the symbol of every handle is alive, all handles are kept.
pub proof fn lemma_live_handles_all(interned: Seq<usize>, symbols: Seq<Symbol>, n: int)
    requires
        0 <= n <= interned.len(),
        forall|k: int| 0 <= k < n ==> symbols[(#[trigger] interned[k]) as int].is_alive,
    ensures
        live_handles(interned, symbols, n) == interned.take(n),
    decreases n,
{
    if n > 0 {
        lemma_live_handles_all(interned, symbols, n - 1);
        assert(symbols[interned[n - 1] as int].is_alive);
        assert(interned.take(n - 1).push(interned[n - 1]) =~= interned.take(n));
    } else {
        assert(interned.take(0) =~= Seq::<usize>::empty());
    }
}

/// One more record adds its handle to those that the object holds.
pub proof fn lemma_holds_step(o: InputElf, h: int, i: int)
    requires
        o.symbol_info is Some,
        0 <= i < o.symbol_info->Some_0.global_symbols@.len(),
    ensures
        holds(o, h, i + 1) == (holds(o, h, i) || o.symbol_info->Some_0.global_symbols@[i] == h),
{
    let info = o.symbol_info->Some_0;
    if holds(o, h, i) {
        let j = choose|j: int|
            0 <= j < i && j < info.global_symbols@.len() && #[trigger] info.global_symbols@[j] == h;
        assert(0 <= j < i + 1 && info.global_symbols@[j] == h);
    }
    if info.global_symbols@[i] == h {
        assert(0 <= i < i + 1 && info.global_symbols@[i] == h);
    }
}

/// One more object adds the symbols that it gives up, if it is not alive,
/// to those that die.
pub proof fn lemma_dies_step(objects: Seq<InputElf>, s: Symbol, h: int, p: int)
    requires
        0 <= p < objects.len(),
    ensures
        dies(objects, s, h, p + 1) == (dies(objects, s, h, p) || (!objects[p].is_alive && gives_up(
            objects[p],
            s,
            h,
            global_count(objects[p]),
        ))),
{
    if dies(objects, s, h, p) {
        let w = choose|w: int|
            0 <= w < p && w < objects.len() && !(#[trigger] objects[w]).is_alive && gives_up(
                objects[w],
                s,
                h,
                global_count(objects[w]),
            );
        assert(0 <= w < p + 1 && !objects[w].is_alive);
    }
    if !objects[p].is_alive && gives_up(objects[p], s, h, global_count(objects[p])) {
        assert(0 <= p < p + 1 && !objects[p].is_alive);
    }
}

/// Marks dead every symbol that an object which is not alive defines and
/// holds.
pub fn clear_dead(objects: &Vec<InputElf>, symbols: &mut Vec<Symbol>)
    requires
        all_named(objects@, old(symbols)@),
    ensures
        clearing(objects@, old(symbols)@, final(symbols)@),
{
    let n: usize = objects.len();
    let mut p: usize = 0;
    while p < n
        invariant
            p <= n,
            n == objects@.len(),
            all_named(objects@, old(symbols)@),
            symbols@.len() == old(symbols)@.len(),
            forall|h: int|
                0 <= h < symbols@.len() ==> #[trigger] symbols@[h] == killed(
                    old(symbols)@[h],
                    dies(objects@, old(symbols)@[h], h, p as int),
                ),
        decreases n - p,
    {
        let ghost before = symbols@;
        if !objects[p].is_alive {
            proof {
                let o = objects@[p as int];
                assert(o.symbols_ingested(old(symbols)@));
                if o.symbol_info is Some {
                    let info = o.symbol_info->Some_0;
                    assert forall|j: int| 0 <= j < info.global_symbols@.len() implies {
                        let h = #[trigger] info.global_symbols@[j];
                        h < before.len() && before[h as int].name@ == info.name_of(
                            info.first_global + j,
                        )
                    } by {
                        let h = info.global_symbols@[j];
                        assert(before[h as int] == killed(
                            old(symbols)@[h as int],
                            dies(objects@, old(symbols)@[h as int], h as int, p as int),
                        ));
                    }
                }
            }
            objects[p].clear_symbol(symbols);
        }
        proof {
            assert forall|h: int| 0 <= h < symbols@.len() implies #[trigger] symbols@[h] == killed(
                old(symbols)@[h],
                dies(objects@, old(symbols)@[h], h, p + 1),
            ) by {
                let s0 = old(symbols)@[h];
                assert(before[h] == killed(s0, dies(objects@, s0, h, p as int)));
                lemma_dies_step(objects@, s0, h, p as int);
                assert(before[h].elf == s0.elf);
            }
        }
        p += 1;
    }
}

/// Drops every object that is not alive, and keeps the others in order.
pub fn drop_dead(objects: &mut Vec<InputElf>)
    ensures
        final(objects)@ == survivors(old(objects)@, old(objects)@.len() as int),
{
    let ghost all = objects@;
    let mut i: usize = 0;
    let ghost mut k: int = 0;
    while i < objects.len()
        invariant
            0 <= k <= all.len(),
            i <= objects@.len(),
            objects@.len() - i == all.len() - k,
            objects@.take(i as int) == survivors(all, k),
            objects@.skip(i as int) == all.skip(k),
        decreases objects@.len() - i,
    {
        let ghost cur = objects@;
        assert(cur[i as int] == cur.skip(i as int)[0]);
        assert(all[k] == all.skip(k)[0]);
        if objects[i].is_alive {
            proof {
                assert(cur.take(i + 1) =~= cur.take(i as int).push(cur[i as int]));
                assert(cur.skip(i + 1) =~= cur.skip(i as int).skip(1));
                assert(all.skip(k + 1) =~= all.skip(k).skip(1));
                k = k + 1;
            }
            i += 1;
        } else {
            objects.remove(i);
            proof {
                assert(objects@.take(i as int) =~= cur.take(i as int));
                assert(objects@.skip(i as int) =~= cur.skip(i as int).skip(1));
                assert(all.skip(k + 1) =~= all.skip(k).skip(1));
                k = k + 1;
            }
        }
    }
    proof {
        assert(objects@.take(i as int) =~= objects@);
    }
}

/// Drops every handle whose symbol is not alive, and keeps the others in
/// order.
pub fn keep_live(interned: &mut Vec<usize>, symbols: &Vec<Symbol>)
    requires
        forall|k: int| 0 <= k < old(interned)@.len() ==>
            (#[trigger] old(interned)@[k]) < symbols@.len(),
    ensures
        final(interned)@ == live_handles(old(interned)@, symbols@, old(interned)@.len() as int),
{
    let mut kept: Vec<usize> = Vec::new();
    let n: usize = interned.len();
    let mut k: usize = 0;
    while k < n
        invariant
            k <= n,
            n == interned@.len(),
            interned@ == old(interned)@,
            forall|l: int| 0 <= l < interned@.len() ==> (#[trigger] interned@[l]) < symbols@.len(),
            kept@ == live_handles(interned@, symbols@, k as int),
        decreases n - k,
    {
        let h: usize = interned[k];
        if symbols[h].is_alive {
            kept.push(h);
        }
        k += 1;
    }
    *interned = kept;
}

/// Whether the objects, symbols and interned handles `o2`, `s2`, `i2` are
/// `o1`, `s1`, `i1` after reclamation: the objects that are not alive are
/// gone, the symbols that they define and hold are dead, and the handles of
/// dead symbols are no longer interned.
pub open spec fn reclaiming(
    o1: Seq<InputElf>,
    s1: Seq<Symbol>,
    i1: Seq<usize>,
    o2: Seq<InputElf>,
    s2: Seq<Symbol>,
    i2: Seq<usize>,
) -> bool {
    &&& o2 == survivors(o1, o1.len() as int)
    &&& clearing(o1, s1, s2)
    &&& i2 == live_handles(i1, s2, i1.len() as int)
}

/// Whether no two of the handles name symbols with the same name.
pub open spec fn names_differ(symbols: Seq<Symbol>, interned: Seq<usize>) -> bool {
    forall|k: int, l: int|
        0 <= k < l < interned.len() ==> symbols[(#[trigger] interned[k]) as int].name@
            != symbols[(#[trigger] interned[l]) as int].name@
}

/// Where no two interned symbols bear the same name, no two of those that
/// are kept do.
pub proof fn lemma_live_handles_differ(interned: Seq<usize>, symbols: Seq<Symbol>, n: int)
    requires
        n <= interned.len(),
        names_differ(symbols, interned),
    ensures
        names_differ(symbols, live_handles(interned, symbols, n)),
    decreases n,
{
    if n > 0 {
        lemma_live_handles_differ(interned, symbols, n - 1);
        lemma_live_handles(interned, symbols, n - 1);
        let prev = live_handles(interned, symbols, n - 1);
        let cur = live_handles(interned, symbols, n);
        if symbols[interned[n - 1] as int].is_alive {
            assert forall|k: int, l: int| 0 <= k < l < cur.len() implies symbols[(
            #[trigger] cur[k]) as int].name@ != symbols[(#[trigger] cur[l]) as int].name@ by {
                assert(cur[k] == prev[k]);
                if l < prev.len() {
                    assert(cur[l] == prev[l]);
                } else {
                    assert(live_among(interned, symbols, n - 1, prev[k]));
                    let w = choose|w: int|
                        0 <= w < n - 1 && w < interned.len() && #[trigger] interned[w] == prev[k]
                            && symbols[prev[k] as int].is_alive;
                    assert(symbols[interned[w] as int].name@ != symbols[interned[n - 1] as int].name@);
                }
            }
        }
    }
}

/// Every object that survives marking and reclamation can be reached,
/// along undefined references, from an object that was alive when marking
/// began; and it is that object, marked alive.
pub proof fn lemma_survivors_were_reached(
    before: Seq<InputElf>,
    symbols: Seq<Symbol>,
    marked: Seq<InputElf>,
    i: int,
)
    requires
        marking(before, symbols, marked),
        0 <= i < survivors(marked, marked.len() as int).len(),
    ensures
        exists|p: int|
            0 <= p < before.len() && #[trigger] reachable(before, symbols, p) && survivors(
                marked,
                marked.len() as int,
            )[i] == (InputElf { is_alive: true, ..before[p] }),
{
    let kept = survivors(marked, marked.len() as int);
    lemma_survivors(marked, marked.len() as int);
    assert(alive_among(marked, marked.len() as int, kept[i]));
    let p = choose|p: int| p < marked.len() && #[trigger] alive_at(marked, p, kept[i]);
    assert(marked[p].is_alive == reachable(before, symbols, p));
    assert(marked[p] == (InputElf { is_alive: marked[p].is_alive, ..before[p] }));
}

/// After resolution and reclamation, resolving again changes no symbol: a
/// symbol that still has no defining object has no definer among the
/// survivors either.
pub proof fn lemma_resolved_stays(
    o0: Seq<InputElf>,
    s0: Seq<Symbol>,
    s1: Seq<Symbol>,
    o2: Seq<InputElf>,
    s3: Seq<Symbol>,
    s4: Seq<Symbol>,
)
    requires
        resolution(o0, s0, s1),
        same_but_alive(o0, o2),
        clearing(o2, s1, s3),
        resolution(survivors(o2, o2.len() as int), s3, s4),
    ensures
        s4 == s3,
{
    let o3 = survivors(o2, o2.len() as int);
    lemma_survivors(o2, o2.len() as int);
    assert forall|h: int| 0 <= h < s3.len() implies s4[h] == s3[h] by {
        assert(s4[h] == resolved(o3, s3[h], h, o3.len() as int));
        assert(s3[h] == killed(s1[h], dies(o2, s1[h], h, o2.len() as int)));
        assert(s1[h] == resolved(o0, s0[h], h, o0.len() as int));
        if s3[h].elf is None {
            lemma_first_definer(o0, h, o0.len() as int);
            lemma_first_definer(o3, h, o3.len() as int);
            if first_definer(o3, h, o3.len() as int) is Some {
                let x = first_definer(o3, h, o3.len() as int)->Some_0;
                assert(defines_at(o3[x.0], h, x.1));
                assert(alive_among(o2, o2.len() as int, o3[x.0]));
                let w = choose|w: int| w < o2.len() && #[trigger] alive_at(o2, w, o3[x.0]);
                assert(o2[w] == (InputElf { is_alive: o2[w].is_alive, ..o0[w] }));
                assert(defines_at(o0[w], h, x.1));
            }
        }
    }
    assert(s4 =~= s3);
}

/// Where every object is alive, marking changes nothing.
pub proof fn lemma_marking_stays(objects: Seq<InputElf>, symbols: Seq<Symbol>, marked: Seq<InputElf>)
    requires
        forall|p: int| 0 <= p < objects.len() ==> (#[trigger] objects[p]).is_alive,
        marking(objects, symbols, marked),
    ensures
        marked == objects,
{
    assert forall|p: int| 0 <= p < objects.len() implies marked[p] == objects[p] by {
        lemma_root_reachable(objects, symbols, p);
        assert(marked[p].is_alive == reachable(objects, symbols, p));
        assert(marked[p] == (InputElf { is_alive: marked[p].is_alive, ..objects[p] }));
    }
    assert(marked =~= objects);
}

/// Where every object is alive and the symbol of every interned handle is
/// alive, reclamation changes nothing.
pub proof fn lemma_reclaiming_stays(
    objects: Seq<InputElf>,
    symbols: Seq<Symbol>,
    interned: Seq<usize>,
    o2: Seq<InputElf>,
    s2: Seq<Symbol>,
    i2: Seq<usize>,
)
    requires
        forall|p: int| 0 <= p < objects.len() ==> (#[trigger] objects[p]).is_alive,
        forall|k: int| 0 <= k < interned.len() ==> 0 <= (#[trigger] interned[k]) < symbols.len()
            && symbols[interned[k] as int].is_alive,
        reclaiming(objects, symbols, interned, o2, s2, i2),
    ensures
        o2 == objects,
        s2 == symbols,
        i2 == interned,
{
    lemma_survivors_all(objects, objects.len() as int);
    assert(objects.take(objects.len() as int) =~= objects);
    assert forall|h: int| 0 <= h < symbols.len() implies s2[h] == symbols[h] by {
        assert(s2[h] == killed(symbols[h], dies(objects, symbols[h], h, objects.len() as int)));
        if dies(objects, symbols[h], h, objects.len() as int) {
            let p = choose|p: int|
                0 <= p < objects.len() && p < objects.len() && !(#[trigger] objects[p]).is_alive
                    && gives_up(objects[p], symbols[h], h, global_count(objects[p]));
            assert(objects[p].is_alive);
        }
    }
    assert(s2 =~= symbols);
    lemma_live_handles_all(interned, symbols, interned.len() as int);
    assert(interned.take(interned.len() as int) =~= interned);
}

/// Running resolution, marking and reclamation a second time changes
/// nothing: the objects, the symbols and the interned handles after the
/// second run are those after the first.
pub proof fn lemma_passes_idempotent(
    o0: Seq<InputElf>,
    s0: Seq<Symbol>,
    i0: Seq<usize>,
    s1: Seq<Symbol>,
    o2: Seq<InputElf>,
    o3: Seq<InputElf>,
    s3: Seq<Symbol>,
    i3: Seq<usize>,
    s4: Seq<Symbol>,
    o5: Seq<InputElf>,
    o6: Seq<InputElf>,
    s6: Seq<Symbol>,
    i6: Seq<usize>,
)
    requires
        forall|k: int| 0 <= k < i0.len() ==> (#[trigger] i0[k]) < s0.len(),
        resolution(o0, s0, s1),
        marking(o0, s1, o2),
        reclaiming(o2, s1, i0, o3, s3, i3),
        resolution(o3, s3, s4),
        marking(o3, s4, o5),
        reclaiming(o5, s4, i3, o6, s6, i6),
    ensures
        o6 == o3,
        s6 == s3,
        i6 == i3,
{
    lemma_resolved_stays(o0, s0, s1, o2, s3, s4);
    lemma_survivors(o2, o2.len() as int);
    assert forall|p: int| 0 <= p < o3.len() implies (#[trigger] o3[p]).is_alive by {
        assert(alive_among(o2, o2.len() as int, o3[p]));
    }
    lemma_marking_stays(o3, s4, o5);
    lemma_live_handles(i0, s3, i0.len() as int);
    assert forall|k: int| 0 <= k < i3.len() implies 0 <= (#[trigger] i3[k]) < s4.len()
        && s4[i3[k] as int].is_alive by {
        assert(live_among(i0, s3, i0.len() as int, i3[k]));
    }
    lemma_reclaiming_stays(o5, s4, i3, o6, s6, i6);
}

} // verus!
