//! The mathematical model of the store: entries are a sequence of
//! (name, completed) pairs with distinct, usable names, read as a map.

use vstd::prelude::*;

verus! {

/// A usable item name: any non-empty string.
pub open spec fn valid_name(s: Seq<char>) -> bool {
    s.len() > 0
}

/// The entry sequence that a snapshot of (name, flag) pairs denotes.
pub open spec fn entry_views(s: Seq<(String, bool)>) -> Seq<(Seq<char>, bool)> {
    s.map_values(|e: (String, bool)| (e.0@, e.1))
}

/// Well-formed entry sequences: every name is usable and no name repeats.
pub open spec fn wf_entries(es: Seq<(Seq<char>, bool)>) -> bool {
    &&& forall|i: int| 0 <= i < es.len() ==> valid_name(#[trigger] es[i].0)
    &&& forall|i: int, j: int| 0 <= i < j < es.len() ==> es[i].0 != es[j].0
}

/// Whether some entry carries the name `n`.
pub open spec fn has_name(es: Seq<(Seq<char>, bool)>, n: Seq<char>) -> bool {
    exists|i: int| 0 <= i < es.len() && (#[trigger] es[i]).0 == n
}

/// The mapping that an entry sequence denotes; a later entry for the same
/// name would win, though well-formed sequences never repeat a name.
pub open spec fn map_of(es: Seq<(Seq<char>, bool)>) -> Map<Seq<char>, bool>
    decreases es.len(),
{
    if es.len() == 0 {
        Map::empty()
    } else {
        map_of(es.drop_last()).insert(es.last().0, es.last().1)
    }
}

/// What an add does to the mapping: a usable, absent name comes in as not
/// completed; an unusable name is refused and a present one is left alone.
pub open spec fn spec_add(m: Map<Seq<char>, bool>, n: Seq<char>) -> Map<Seq<char>, bool> {
    if !valid_name(n) {
        m
    } else if m.dom().contains(n) {
        m
    } else {
        m.insert(n, false)
    }
}

/// What a complete does to the mapping: a present name is marked completed;
/// an absent one is refused and the mapping is left alone.
pub open spec fn spec_complete(m: Map<Seq<char>, bool>, n: Seq<char>) -> Map<Seq<char>, bool> {
    if m.dom().contains(n) {
        m.insert(n, true)
    } else {
        m
    }
}

/// Adding a name twice yields the same mapping as adding it once: the second
/// add changes nothing, not even the completion flag.
pub proof fn lemma_add_idempotent(m: Map<Seq<char>, bool>, n: Seq<char>)
    ensures
        spec_add(spec_add(m, n), n) == spec_add(m, n),
{
    if valid_name(n) && !m.dom().contains(n) {
        assert(spec_add(m, n).dom().contains(n));
    }
}

/// Appending an entry inserts its pair into the mapping.
pub proof fn lemma_map_of_push(es: Seq<(Seq<char>, bool)>, p: (Seq<char>, bool))
    ensures
        map_of(es.push(p)) == map_of(es).insert(p.0, p.1),
{
    assert(es.push(p).drop_last() =~= es);
    assert(es.push(p).last() == p);
}

/// The domain of `map_of` is exactly the set of names that occur.
pub proof fn lemma_map_of_domain(es: Seq<(Seq<char>, bool)>, n: Seq<char>)
    ensures
        map_of(es).dom().contains(n) <==> has_name(es, n),
    decreases es.len(),
{
    if es.len() > 0 {
        lemma_map_of_domain(es.drop_last(), n);
        if es.last().0 == n {
            assert(es[es.len() - 1].0 == n);
        } else {
            assert(has_name(es.drop_last(), n) ==> has_name(es, n));
            if has_name(es, n) {
                let i = choose|i: int| 0 <= i < es.len() && (#[trigger] es[i]).0 == n;
                assert(es.drop_last()[i] == es[i]);
            }
        }
    }
}

/// Marking one name completed, entry by entry, inserts `true` for that name
/// into the mapping and changes nothing else.
pub proof fn lemma_map_of_complete(es: Seq<(Seq<char>, bool)>, es2: Seq<(Seq<char>, bool)>, n: Seq<
    char,
>)
    requires
        forall|p: int, q: int| 0 <= p < q < es.len() ==> es[p].0 != es[q].0,
        es2.len() == es.len(),
        forall|i: int| 0 <= i < es.len() ==> (#[trigger] es2[i]) == (
            es[i].0,
            if es[i].0 == n {
                true
            } else {
                es[i].1
            },
        ),
        has_name(es, n),
    ensures
        map_of(es2) == map_of(es).insert(n, true),
    decreases es.len(),
{
    let last = es[es.len() - 1];
    if last.0 == n {
        assert(es2.drop_last() =~= es.drop_last()) by {
            assert forall|i: int| 0 <= i < es.len() - 1 implies es2.drop_last()[i]
                == es.drop_last()[i] by {
                assert(es[i].0 != es[es.len() - 1].0);
                assert(es2[i] == (es[i].0, es[i].1));
            }
        }
        assert(es2.last() == (n, true));
        assert(map_of(es.drop_last()).insert(n, last.1).insert(n, true) =~= map_of(
            es.drop_last(),
        ).insert(n, true));
    } else {
        assert(has_name(es.drop_last(), n)) by {
            let i = choose|i: int| 0 <= i < es.len() && (#[trigger] es[i]).0 == n;
            assert(es.drop_last()[i] == es[i]);
        }
        assert(forall|i: int| 0 <= i < es.drop_last().len() ==> (#[trigger] es2.drop_last()[i])
            == es2[i]);
        lemma_map_of_complete(es.drop_last(), es2.drop_last(), n);
        assert(es2.last() == (last.0, last.1));
        assert(map_of(es2) == map_of(es.drop_last()).insert(n, true).insert(last.0, last.1));
        assert(map_of(es.drop_last()).insert(n, true).insert(last.0, last.1) =~= map_of(
            es.drop_last(),
        ).insert(last.0, last.1).insert(n, true));
    }
}

/// On sequences without repeated names, the mapping reads each entry back.
pub proof fn lemma_map_of_index(es: Seq<(Seq<char>, bool)>, i: int)
    requires
        forall|p: int, q: int| 0 <= p < q < es.len() ==> es[p].0 != es[q].0,
        0 <= i < es.len(),
    ensures
        map_of(es).dom().contains(es[i].0),
        map_of(es)[es[i].0] == es[i].1,
    decreases es.len(),
{
    lemma_map_of_domain(es, es[i].0);
    if i < es.len() - 1 {
        assert(es.drop_last()[i] == es[i]);
        lemma_map_of_index(es.drop_last(), i);
        assert(es.last().0 != es[i].0);
    }
}

/// One operation on the mapping: `true` is an add of the name, `false` a
/// complete of it.
pub open spec fn apply_op(m: Map<Seq<char>, bool>, op: (bool, Seq<char>)) -> Map<Seq<char>, bool> {
    if op.0 {
        spec_add(m, op.1)
    } else {
        spec_complete(m, op.1)
    }
}

/// The mapping after a whole sequence of operations, first to last.
pub open spec fn apply_ops(m: Map<Seq<char>, bool>, ops: Seq<(bool, Seq<char>)>) -> Map<
    Seq<char>,
    bool,
>
    decreases ops.len(),
{
    if ops.len() == 0 {
        m
    } else {
        apply_ops(apply_op(m, ops[0]), ops.skip(1))
    }
}

/// Whether some operation adds `n`.
pub open spec fn adds_name(ops: Seq<(bool, Seq<char>)>, n: Seq<char>) -> bool {
    exists|i: int| 0 <= i < ops.len() && ops[i] == (true, n)
}

/// Whether some operation completes `n`.
pub open spec fn completes_name(ops: Seq<(bool, Seq<char>)>, n: Seq<char>) -> bool {
    exists|j: int| 0 <= j < ops.len() && ops[j] == (false, n)
}

/// Whether some operation completes `n` after an earlier one added it.
pub open spec fn completes_after_add(ops: Seq<(bool, Seq<char>)>, n: Seq<char>) -> bool {
    exists|j: int|
        0 <= j < ops.len() && ops[j] == (false, n) && exists|i: int| 0 <= i < j && ops[i] == (
        true,
        n,
        )
}

proof fn lemma_ops_shift(ops: Seq<(bool, Seq<char>)>, n: Seq<char>)
    requires
        ops.len() > 0,
    ensures
        adds_name(ops, n) <==> (ops[0] == (true, n) || adds_name(ops.skip(1), n)),
        completes_name(ops, n) <==> (ops[0] == (false, n) || completes_name(ops.skip(1), n)),
        completes_after_add(ops, n) <==> ((ops[0] == (true, n) && completes_name(ops.skip(1), n))
            || completes_after_add(ops.skip(1), n)),
{
    let rest = ops.skip(1);
    assert(forall|i: int| 0 <= i < rest.len() ==> #[trigger] rest[i] == ops[i + 1]);
    if adds_name(ops, n) {
        let i = choose|i: int| 0 <= i < ops.len() && ops[i] == (true, n);
        if i > 0 {
            assert(rest[i - 1] == (true, n));
        }
    }
    if adds_name(rest, n) {
        let i = choose|i: int| 0 <= i < rest.len() && rest[i] == (true, n);
        assert(ops[i + 1] == (true, n));
    }
    if completes_name(ops, n) {
        let j = choose|j: int| 0 <= j < ops.len() && ops[j] == (false, n);
        if j > 0 {
            assert(rest[j - 1] == (false, n));
        }
    }
    if completes_name(rest, n) {
        let j = choose|j: int| 0 <= j < rest.len() && rest[j] == (false, n);
        assert(ops[j + 1] == (false, n));
    }
    if completes_after_add(ops, n) {
        let j = choose|j: int|
            0 <= j < ops.len() && ops[j] == (false, n) && exists|i: int|
                0 <= i < j && ops[i] == (true, n);
        let i = choose|i: int| 0 <= i < j && ops[i] == (true, n);
        assert(rest[j - 1] == (false, n));
        if i == 0 {
            assert(ops[0] == (true, n));
            assert(completes_name(rest, n));
        } else {
            assert(rest[i - 1] == (true, n));
            assert(0 <= i - 1 < j - 1);
            assert(completes_after_add(rest, n));
        }
    }
    if ops[0] == (true, n) && completes_name(rest, n) {
        let j = choose|j: int| 0 <= j < rest.len() && rest[j] == (false, n);
        assert(ops[j + 1] == (false, n));
        assert(0 <= 0 < j + 1 && ops[0] == (true, n));
        assert(completes_after_add(ops, n));
    }
    if completes_after_add(rest, n) {
        let j = choose|j: int|
            0 <= j < rest.len() && rest[j] == (false, n) && exists|i: int|
                0 <= i < j && rest[i] == (true, n);
        let i = choose|i: int| 0 <= i < j && rest[i] == (true, n);
        assert(ops[j + 1] == (false, n) && ops[i + 1] == (true, n) && 0 <= i + 1 < j + 1);
        assert(completes_after_add(ops, n));
    }
}

/// What a whole sequence of operations leaves in the mapping, name by name:
/// a name is present afterwards exactly when it was present before or some
/// add of a usable such name occurs; a name the sequence itself put in is
/// completed exactly when some complete of it came after an add of it.
pub proof fn lemma_apply_ops(m: Map<Seq<char>, bool>, ops: Seq<(bool, Seq<char>)>, n: Seq<char>)
    ensures
        apply_ops(m, ops).dom().contains(n) <==> (m.dom().contains(n) || (valid_name(n)
            && adds_name(ops, n))),
        m.dom().contains(n) ==> apply_ops(m, ops)[n] == (m[n] || completes_name(ops, n)),
        (!m.dom().contains(n) && valid_name(n) && adds_name(ops, n)) ==> apply_ops(m, ops)[n]
            == completes_after_add(ops, n),
    decreases ops.len(),
{
    if ops.len() > 0 {
        let op = ops[0];
        let m1 = apply_op(m, op);
        let rest = ops.skip(1);
        lemma_ops_shift(ops, n);
        lemma_apply_ops(m1, rest, n);
        if op == (true, n) && valid_name(n) && !m.dom().contains(n) {
            if completes_after_add(rest, n) {
                let j = choose|j: int|
                    0 <= j < rest.len() && rest[j] == (false, n) && exists|i: int|
                        0 <= i < j && rest[i] == (true, n);
                assert(completes_name(rest, n));
            }
        }
        if op == (false, n) && m.dom().contains(n) {
            assert(completes_name(ops, n));
        }
    }
}

/// On an empty store, the mapping after any sequence of operations holds
/// exactly the usable names that were added, and such a name is completed
/// exactly when some complete of it came after an add of it.
pub proof fn lemma_ops_from_empty(ops: Seq<(bool, Seq<char>)>, n: Seq<char>)
    ensures
        apply_ops(Map::empty(), ops).dom().contains(n) <==> (valid_name(n) && adds_name(ops, n)),
        (valid_name(n) && adds_name(ops, n)) ==> apply_ops(Map::empty(), ops)[n]
            == completes_after_add(ops, n),
{
    lemma_apply_ops(Map::empty(), ops, n);
}

/// Adds of any number of names, in whatever order they arrive: afterwards
/// the mapping holds each usable name exactly once, not completed, and
/// nothing else.
pub proof fn lemma_adds_only(names: Seq<Seq<char>>, n: Seq<char>)
    ensures
        apply_ops(Map::empty(), names.map_values(|x: Seq<char>| (true, x))).dom().contains(n) <==> (
        valid_name(n) && names.contains(n)),
        (valid_name(n) && names.contains(n)) ==> apply_ops(
            Map::empty(),
            names.map_values(|x: Seq<char>| (true, x)),
        )[n] == false,
{
    let ops = names.map_values(|x: Seq<char>| (true, x));
    lemma_ops_from_empty(ops, n);
    assert(adds_name(ops, n) <==> names.contains(n)) by {
        if adds_name(ops, n) {
            let i = choose|i: int| 0 <= i < ops.len() && ops[i] == (true, n);
            assert(names[i] == n);
        }
        if names.contains(n) {
            let i = choose|i: int| 0 <= i < names.len() && names[i] == n;
            assert(ops[i] == (true, n));
        }
    }
    if completes_after_add(ops, n) {
        let j = choose|j: int|
            0 <= j < ops.len() && ops[j] == (false, n) && exists|i: int|
                0 <= i < j && ops[i] == (true, n);
        assert(ops[j] == (true, names[j]));
    }
}

} // verus!
