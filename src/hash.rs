use vstd::prelude::*;
use crate::tree::{size, Node, Tree};

verus! {

/// The SHA-256 digest of a byte string.
pub uninterp spec fn sha256_of(b: Seq<u8>) -> Seq<u8>;

/// Relies on sha2's `Sha256::digest`: the SHA-256 digest of the bytes, which
/// is 32 bytes long.
#[verifier::external_body]
fn sha256(b: &[u8]) -> (r: Vec<u8>)
    ensures
        r@ == sha256_of(b@),
        r@.len() == 32,
{
    <sha2::Sha256 as sha2::Digest>::digest(b).to_vec()
}

/// Tag byte hashed before an atom's bytes.
pub const ATOM_TAG: u8 = 1;

/// Tag byte hashed before a pair's two child hashes.
pub const PAIR_TAG: u8 = 2;

/// What is hashed for a tree: a tag that tells atoms from pairs, then the
/// atom's bytes or the hashes of the two children.
pub open spec fn hash_input(t: Tree) -> Seq<u8>
    decreases t,
{
    match t {
        Tree::Atom(b) => seq![ATOM_TAG] + b,
        Tree::Pair(f, r) => seq![PAIR_TAG] + tree_hash(*f) + tree_hash(*r),
    }
}

/// The structural hash of a tree: the digest of its tagged input.
pub open spec fn tree_hash(t: Tree) -> Seq<u8>
    decreases t,
{
    match t {
        Tree::Atom(b) => sha256_of(seq![ATOM_TAG] + b),
        Tree::Pair(f, r) => sha256_of(seq![PAIR_TAG] + tree_hash(*f) + tree_hash(*r)),
    }
}

/// Hashing is a function of structure alone: structurally equal trees hash
/// alike, however often the hash is taken.
pub proof fn lemma_hash_deterministic(t1: Tree, t2: Tree)
    requires
        t1 == t2,
    ensures
        tree_hash(t1) == tree_hash(t2),
{
}

/// An atom never feeds the digest the same bytes as a pair, not even an atom
/// whose bytes are the two child hashes of that pair laid end to end: the tag
/// byte tells them apart.
pub proof fn lemma_domain_separation(f: Tree, r: Tree)
    ensures
        hash_input(Tree::Atom(tree_hash(f) + tree_hash(r))) != hash_input(
            Tree::Pair(Box::new(f), Box::new(r)),
        ),
{
    let a = hash_input(Tree::Atom(tree_hash(f) + tree_hash(r)));
    let p = hash_input(Tree::Pair(Box::new(f), Box::new(r)));
    assert(a[0] == ATOM_TAG);
    assert(p[0] == PAIR_TAG);
}

/// A pending piece of hashing work: hash a tree, or join the two hashes on
/// top of the value stack into the hash of their pair.
pub enum Task {
    Visit(Tree),
    Join,
}

/// Work left on a stack, for termination: a tree counts twice its size.
pub open spec fn weight(todo: Seq<Task>) -> nat
    decreases todo.len(),
{
    if todo.len() == 0 {
        0
    } else {
        weight(todo.drop_last()) + match todo.last() {
            Task::Visit(t) => 2 * size(t),
            Task::Join => 1,
        }
    }
}

/// The value stack left after doing all the work on `todo`, top last; empty
/// when a join finds fewer than two values.
pub open spec fn finish(todo: Seq<Task>, vals: Seq<Seq<u8>>) -> Seq<Seq<u8>>
    decreases weight(todo),
    via finish_decreases
{
    if todo.len() == 0 {
        vals
    } else {
        let rest = todo.drop_last();
        match todo.last() {
            Task::Visit(Tree::Atom(b)) => finish(rest, vals.push(sha256_of(seq![ATOM_TAG] + b))),
            Task::Visit(Tree::Pair(f, r)) => finish(
                rest.push(Task::Join).push(Task::Visit(*r)).push(Task::Visit(*f)),
                vals,
            ),
            Task::Join => if vals.len() >= 2 {
                let h = sha256_of(seq![PAIR_TAG] + vals[vals.len() - 2] + vals.last());
                finish(rest, vals.drop_last().drop_last().push(h))
            } else {
                Seq::empty()
            },
        }
    }
}

proof fn lemma_weight_push(s: Seq<Task>, t: Task)
    ensures
        weight(s.push(t)) == weight(s) + match t {
            Task::Visit(x) => 2 * size(x),
            Task::Join => 1,
        },
{
    assert(s.push(t).drop_last() =~= s);
}

#[via_fn]
proof fn finish_decreases(todo: Seq<Task>, vals: Seq<Seq<u8>>) {
    if todo.len() > 0 {
        let rest = todo.drop_last();
        match todo.last() {
            Task::Visit(Tree::Pair(f, r)) => {
                let a = rest.push(Task::Join);
                let b = a.push(Task::Visit(*r));
                let c = b.push(Task::Visit(*f));
                lemma_weight_push(rest, Task::Join);
                lemma_weight_push(a, Task::Visit(*r));
                lemma_weight_push(b, Task::Visit(*f));
            },
            _ => {
            },
        }
    }
}

proof fn lemma_size_positive(t: Tree)
    ensures
        size(t) >= 1,
{
}

/// Visiting a tree pushes its hash.
proof fn lemma_finish_visit(todo: Seq<Task>, vals: Seq<Seq<u8>>, t: Tree)
    ensures
        finish(todo.push(Task::Visit(t)), vals) == finish(todo, vals.push(tree_hash(t))),
    decreases t,
{
    let s = todo.push(Task::Visit(t));
    assert(s.drop_last() =~= todo);
    match t {
        Tree::Atom(b) => {
        },
        Tree::Pair(f, r) => {
            lemma_size_positive(*f);
            lemma_size_positive(*r);
            let s1 = todo.push(Task::Join).push(Task::Visit(*r));
            lemma_finish_visit(s1, vals, *f);
            let v1 = vals.push(tree_hash(*f));
            lemma_finish_visit(todo.push(Task::Join), v1, *r);
            let v2 = v1.push(tree_hash(*r));
            let j = todo.push(Task::Join);
            assert(j.drop_last() =~= todo);
            assert(v2[v2.len() - 2] == tree_hash(*f));
            assert(v2.drop_last().drop_last() =~= vals);
        },
    }
}

enum Step<'a> {
    Visit(&'a Node),
    Join,
}

spec fn task_of(s: Step) -> Task {
    match s {
        Step::Visit(n) => Task::Visit(n@),
        Step::Join => Task::Join,
    }
}

spec fn tasks(todo: Seq<Step>) -> Seq<Task> {
    todo.map_values(|s: Step| task_of(s))
}

spec fn values(vals: Seq<Vec<u8>>) -> Seq<Seq<u8>> {
    vals.map_values(|v: Vec<u8>| v@)
}

/// The structural hash of a node: SHA-256 of 0x01 and the bytes for an atom,
/// of 0x02 and the two child hashes for a pair. It works from an explicit
/// stack, so deep trees do not exhaust the call stack.
pub fn sha256tree(n: &Node) -> (r: Vec<u8>)
    ensures
        r@ == tree_hash(n@),
        r@.len() == 32,
{
    let mut todo: Vec<Step> = Vec::new();
    todo.push(Step::Visit(n));
    let mut vals: Vec<Vec<u8>> = Vec::new();
    proof {
        lemma_finish_visit(Seq::empty(), Seq::empty(), n@);
        assert(tasks(todo@) =~= Seq::<Task>::empty().push(Task::Visit(n@)));
        assert(values(vals@) =~= Seq::<Seq<u8>>::empty());
        assert(Seq::<Task>::empty().push(Task::Visit(n@)).drop_last() =~= Seq::<Task>::empty());
    }
    while todo.len() > 0
        invariant
            finish(tasks(todo@), values(vals@)) == seq![tree_hash(n@)],
            forall|i: int| 0 <= i < vals@.len() ==> (#[trigger] vals@[i])@.len() == 32,
        decreases weight(tasks(todo@)),
    {
        let ghost old_tasks = tasks(todo@);
        let ghost old_vals = values(vals@);
        let step = todo.pop().unwrap();
        proof {
            assert(tasks(todo@) =~= old_tasks.drop_last());
            lemma_weight_push(old_tasks.drop_last(), old_tasks.last());
            assert(old_tasks.drop_last().push(old_tasks.last()) =~= old_tasks);
        }
        match step {
            Step::Visit(Node::Atom(b)) => {
                let mut input: Vec<u8> = Vec::new();
                input.push(ATOM_TAG);
                let mut c = b.clone();
                assert(c@ == b@);
                input.append(&mut c);
                assert(input@ =~= seq![ATOM_TAG] + b@);
                let h = sha256(&input);
                vals.push(h);
                proof {
                    assert(values(vals@) =~= old_vals.push(h@));
                }
            },
            Step::Visit(Node::Pair(f, r)) => {
                todo.push(Step::Join);
                todo.push(Step::Visit(r));
                todo.push(Step::Visit(f));
                proof {
                    assert(tasks(todo@) =~= old_tasks.drop_last().push(Task::Join).push(
                        Task::Visit(r@),
                    ).push(Task::Visit(f@)));
                    lemma_size_positive(f@);
                    lemma_size_positive(r@);
                    let a = old_tasks.drop_last().push(Task::Join);
                    lemma_weight_push(old_tasks.drop_last(), Task::Join);
                    lemma_weight_push(a, Task::Visit(r@));
                    lemma_weight_push(a.push(Task::Visit(r@)), Task::Visit(f@));
                }
            },
            Step::Join => {
                if vals.len() < 2 {
                    proof {
                        assert(finish(old_tasks, old_vals) == Seq::<Seq<u8>>::empty());
                        assert(seq![tree_hash(n@)].len() == 1);
                    }
                    assert(false);
                }
                let ghost vb = vals@;
                let mut hr = vals.pop().unwrap();
                let ghost v1 = vals@;
                let mut hf = vals.pop().unwrap();
                let ghost hfv = hf@;
                let ghost hrv = hr@;
                proof {
                    assert(v1 =~= vb.drop_last());
                }
                let mut input: Vec<u8> = Vec::new();
                input.push(PAIR_TAG);
                input.append(&mut hf);
                input.append(&mut hr);
                let h = sha256(&input);
                vals.push(h);
                proof {
                    assert(old_vals[old_vals.len() - 2] == vb[vb.len() - 2]@);
                    assert(old_vals[old_vals.len() - 1] == vb[vb.len() - 1]@);
                    assert(hfv == vb[vb.len() - 2]@);
                    assert(hrv == vb[vb.len() - 1]@);
                    assert(input@ =~= seq![PAIR_TAG] + old_vals[old_vals.len() - 2] + old_vals.last());
                    assert(values(vals@) =~= old_vals.drop_last().drop_last().push(h@));
                }
            },
        }
    }
    assert(tasks(todo@) =~= Seq::<Task>::empty());
    assert(values(vals@) == seq![tree_hash(n@)]);
    assert(values(vals@)[0] == vals@[0]@);
    let r = vals.pop().unwrap();
    r
}

} // verus!
