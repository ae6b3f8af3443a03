use vstd::prelude::*;
use clvmr::allocator::Allocator;
use crate::codec::{decode, lemma_round_trip, sexp_from_bin, well_formed, ser};
use crate::error::ClvmError;
use crate::tree::{size, Node, Tree};

verus! {

/// clvmr's node arena, opaque to proofs; `arena_nodes` says what it holds.
#[verifier::external_type_specification]
#[verifier::external_body]
pub struct ExAllocator(Allocator);

/// The tree that each valid handle of an arena stands for.
pub uninterp spec fn arena_nodes(a: Allocator) -> Map<i32, Tree>;

/// Room left in an arena: atom bytes, atoms and pairs that may still be
/// allocated.
pub uninterp spec fn arena_room(a: Allocator) -> (nat, nat, nat);

/// What evaluating a program against a solution gives under the Chia dialect
/// with the given flags and cost ceiling, in an arena made by
/// `Allocator::new` with the given room left: the cost spent and the result,
/// or the evaluator's diagnostic.
pub uninterp spec fn vm_eval(
    flags: u32,
    program: Tree,
    solution: Tree,
    max_cost: u64,
    room: (nat, nat, nat),
) -> Result<(u64, Tree), Seq<char>>;

/// Room in a new arena: its heap holds `u32::MAX` bytes of which one is
/// taken, two of its `i32::MAX - 1` atoms are made, and no pair.
pub open spec fn initial_room() -> (nat, nat, nat) {
    (0xFFFF_FFFE, 0x7FFF_FFFC, 0x7FFF_FFFF)
}

/// Room left after copying a tree into an arena with `room` left, one atom
/// per atom and one pair per pair, or `None` when it does not fit.
pub open spec fn room_after_load(t: Tree, room: (nat, nat, nat)) -> Option<(nat, nat, nat)>
    decreases t,
{
    match t {
        Tree::Atom(b) => if b.len() <= room.0 && room.1 > 0 {
            Some(((room.0 - b.len()) as nat, (room.1 - 1) as nat, room.2))
        } else {
            None
        },
        Tree::Pair(f, r) => match room_after_load(*f, room) {
            None => None,
            Some(r1) => match room_after_load(*r, r1) {
                None => None,
                Some(r2) => if r2.2 > 0 {
                    Some((r2.0, r2.1, (r2.2 - 1) as nat))
                } else {
                    None
                },
            },
        },
    }
}

/// Diagnostic when the inputs themselves do not fit in a new arena.
pub open spec fn arena_full_message() -> Seq<char> {
    seq!['a', 'r', 'e', 'n', 'a', ' ', 'f', 'u', 'l', 'l']
}

/// Outcome of evaluating `program` against `solution` in a new arena that
/// holds copies of the two, the program copied first.
pub open spec fn run_outcome(program: Tree, solution: Tree, max_cost: u64) -> Result<
    (u64, Tree),
    Seq<char>,
> {
    match room_after_load(program, initial_room()) {
        None => Err(arena_full_message()),
        Some(r1) => match room_after_load(solution, r1) {
            None => Err(arena_full_message()),
            Some(r2) => vm_eval(DIALECT_FLAGS, program, solution, max_cost, r2),
        },
    }
}

/// The arena `b` keeps every handle of `a` with the tree it stood for.
pub open spec fn extends(a: Map<i32, Tree>, b: Map<i32, Tree>) -> bool {
    forall|k: i32| #[trigger] a.contains_key(k) ==> b.contains_key(k) && b[k] == a[k]
}

/// Relies on clvmr's `Allocator::new`: a new arena with the default limits,
/// holding the preallocated nil and one atoms. Nothing is assumed of those
/// handles; this library reads only handles it made itself.
pub assume_specification[ Allocator::new ]() -> (r: Allocator)
    ensures
        arena_room(r) == initial_room(),
;

/// Relies on clvmr's `Allocator::new_atom`: it fails (out of memory, too
/// many atoms), leaving the arena unchanged, exactly when the bytes or one
/// more atom do not fit; else a fresh handle for an atom holding `v`.
#[verifier::external_body]
fn arena_atom(a: &mut Allocator, v: &[u8]) -> (r: Option<i32>)
    ensures
        r is Some <==> (v@.len() <= arena_room(*old(a)).0 && arena_room(*old(a)).1 > 0),
        match r {
            Some(p) => !arena_nodes(*old(a)).contains_key(p) && arena_nodes(*final(a))
                == arena_nodes(*old(a)).insert(p, Tree::Atom(v@)) && arena_room(*final(a)) == (
                (arena_room(*old(a)).0 - v@.len()) as nat,
                (arena_room(*old(a)).1 - 1) as nat,
                arena_room(*old(a)).2,
            ),
            None => arena_nodes(*final(a)) == arena_nodes(*old(a)) && arena_room(*final(a))
                == arena_room(*old(a)),
        },
{
    a.new_atom(v).ok()
}

/// Relies on clvmr's `Allocator::new_pair`: it fails (too many pairs),
/// leaving the arena unchanged, exactly when no pair is left; else a fresh
/// handle for the pair of the two handles' trees.
#[verifier::external_body]
fn arena_pair(a: &mut Allocator, first: i32, rest: i32) -> (r: Option<i32>)
    requires
        arena_nodes(*old(a)).contains_key(first),
        arena_nodes(*old(a)).contains_key(rest),
    ensures
        r is Some <==> arena_room(*old(a)).2 > 0,
        match r {
            Some(p) => !arena_nodes(*old(a)).contains_key(p) && arena_nodes(*final(a))
                == arena_nodes(*old(a)).insert(
                p,
                Tree::Pair(
                    Box::new(arena_nodes(*old(a))[first]),
                    Box::new(arena_nodes(*old(a))[rest]),
                ),
            ) && arena_room(*final(a)) == (
                arena_room(*old(a)).0,
                arena_room(*old(a)).1,
                (arena_room(*old(a)).2 - 1) as nat,
            ),
            None => arena_nodes(*final(a)) == arena_nodes(*old(a)) && arena_room(*final(a))
                == arena_room(*old(a)),
        },
{
    a.new_pair(first, rest).ok()
}

/// Relies on clvmr's `Allocator::sexp`: the two handles of a pair, or `None`
/// for an atom.
#[verifier::external_body]
fn arena_children(a: &Allocator, p: i32) -> (r: Option<(i32, i32)>)
    requires
        arena_nodes(*a).contains_key(p),
    ensures
        match r {
            Some((f, s)) => arena_nodes(*a).contains_key(f) && arena_nodes(*a).contains_key(s)
                && arena_nodes(*a)[p] == Tree::Pair(
                Box::new(arena_nodes(*a)[f]),
                Box::new(arena_nodes(*a)[s]),
            ),
            None => arena_nodes(*a)[p] is Atom,
        },
{
    match a.sexp(p) {
        clvmr::allocator::SExp::Pair(f, s) => Some((f, s)),
        clvmr::allocator::SExp::Atom() => None,
    }
}

/// Relies on clvmr's `Allocator::atom`: the bytes of an atom.
#[verifier::external_body]
fn arena_atom_bytes(a: &Allocator, p: i32) -> (r: Vec<u8>)
    requires
        arena_nodes(*a).contains_key(p),
        arena_nodes(*a)[p] is Atom,
    ensures
        Tree::Atom(r@) == arena_nodes(*a)[p],
{
    a.atom(p).to_vec()
}

/// Relies on clvmr's `run_program` under `ChiaDialect::new(flags)`: the arena
/// only grows (a rollback inside the run drops only nodes the run made), so
/// nodes already in it keep their trees; the outcome, a cost and result or
/// the evaluator's diagnostic, depends on the trees, flags, cost ceiling and
/// the room left in the arena alone.
#[verifier::external_body]
fn arena_run(a: &mut Allocator, flags: u32, program: i32, solution: i32, max_cost: u64) -> (r:
    Result<(u64, i32), String>)
    requires
        arena_nodes(*old(a)).contains_key(program),
        arena_nodes(*old(a)).contains_key(solution),
    ensures
        extends(arena_nodes(*old(a)), arena_nodes(*final(a))),
        match r {
            Ok((c, p)) => arena_nodes(*final(a)).contains_key(p) && vm_eval(
                flags,
                arena_nodes(*old(a))[program],
                arena_nodes(*old(a))[solution],
                max_cost,
                arena_room(*old(a)),
            ) == Ok::<(u64, Tree), Seq<char>>((c, arena_nodes(*final(a))[p])),
            Err(msg) => vm_eval(
                flags,
                arena_nodes(*old(a))[program],
                arena_nodes(*old(a))[solution],
                max_cost,
                arena_room(*old(a)),
            ) == Err::<(u64, Tree), Seq<char>>(msg@),
        },
{
    let dialect = clvmr::chia_dialect::ChiaDialect::new(flags);
    match clvmr::run_program::run_program(a, &dialect, program, solution, max_cost) {
        Ok(clvmr::reduction::Reduction(c, p)) => Ok((c, p)),
        Err(clvmr::reduction::EvalErr(_, msg)) => Err(msg),
    }
}

/// Copies a node into the arena; `None` when it does not fit.
fn load(a: &mut Allocator, n: &Node) -> (r: Option<i32>)
    ensures
        extends(arena_nodes(*old(a)), arena_nodes(*final(a))),
        r is Some <==> room_after_load(n@, arena_room(*old(a))) is Some,
        match r {
            Some(p) => arena_nodes(*final(a)).contains_key(p) && arena_nodes(*final(a))[p] == n@
                && Some(arena_room(*final(a))) == room_after_load(n@, arena_room(*old(a))),
            None => true,
        },
    decreases n,
{
    match n {
        Node::Atom(b) => arena_atom(a, b.as_slice()),
        Node::Pair(f, s) => {
            let pf = load(a, f)?;
            let ghost mid = arena_nodes(*a);
            let ps = load(a, s)?;
            assert(mid.contains_key(pf));
            arena_pair(a, pf, ps)
        },
    }
}

/// Copies the tree behind a handle out of the arena.
fn unload(a: &Allocator, p: i32) -> (r: Node)
    requires
        arena_nodes(*a).contains_key(p),
    ensures
        r@ == arena_nodes(*a)[p],
    decreases size(arena_nodes(*a)[p]),
{
    match arena_children(a, p) {
        Some((f, s)) => {
            let nf = unload(a, f);
            let ns = unload(a, s);
            Node::Pair(Box::new(nf), Box::new(ns))
        },
        None => Node::Atom(arena_atom_bytes(a, p)),
    }
}

/// Whether every atom of the node is short enough to serialize.
pub fn is_well_formed(n: &Node) -> (r: bool)
    ensures
        r == well_formed(n@),
    decreases n,
{
    match n {
        Node::Atom(b) => (b.len() as u64) < crate::codec::MAX_ATOM_LEN,
        Node::Pair(f, s) => is_well_formed(f) && is_well_formed(s),
    }
}

/// The dialect flags used for every evaluation: the plain Chia dialect.
pub const DIALECT_FLAGS: u32 = 0;

/// The cost ceiling used when none is given: the largest one.
pub const UNBOUNDED_COST: u64 = 0xFFFF_FFFF_FFFF_FFFF;

fn arena_full() -> (r: String)
    ensures
        r@ == arena_full_message(),
{
    let s = "arena full".to_string();
    proof {
        reveal_strlit("arena full");
    }
    s
}

/// Evaluates a program against a solution with the given cost ceiling, in a
/// new arena: the cost spent and the result, or `ReductionFailed` with the
/// evaluator's diagnostic, exactly as `run_outcome` says.
pub fn run(program: &Node, solution: &Node, max_cost: u64) -> (r: Result<(u64, Node), ClvmError>)
    ensures
        match r {
            Ok((c, n)) => run_outcome(program@, solution@, max_cost) == Ok::<(u64, Tree), Seq<char>>((c, n@)),
            Err(e) => e is ReductionFailed && run_outcome(program@, solution@, max_cost) == Err::<(u64, Tree), Seq<char>>(
                e->ReductionFailed_0@,
            ),
        },
{
    let mut a = Allocator::new();
    let pp = match load(&mut a, program) {
        Some(p) => p,
        None => return Err(ClvmError::ReductionFailed(arena_full())),
    };
    let ghost mid = arena_nodes(a);
    let ps = match load(&mut a, solution) {
        Some(p) => p,
        None => return Err(ClvmError::ReductionFailed(arena_full())),
    };
    assert(mid.contains_key(pp));
    match arena_run(&mut a, DIALECT_FLAGS, pp, ps, max_cost) {
        Ok((c, p)) => Ok((c, unload(&a, p))),
        Err(msg) => Err(ClvmError::ReductionFailed(msg)),
    }
}

/// The serialized bootstrap program that curries: run against
/// `(program . args)` it builds a program that calls `program` with `args`
/// put before its own solution.
pub open spec fn curry_program_bytes() -> Seq<u8> {
    seq![
        0xff, 0x02, 0xff, 0xff, 0x01, 0xff, 0x02, 0xff, 0x04, 0xff, 0xff, 0x04,
        0xff, 0x02, 0xff, 0xff, 0x04, 0xff, 0x05, 0xff, 0xff, 0x04, 0xff, 0x07,
        0xff, 0x80, 0x80, 0x80, 0x80, 0x80, 0xff, 0xff, 0x04, 0xff, 0xff, 0x01,
        0xff, 0xff, 0x04, 0xff, 0xff, 0x01, 0x02, 0xff, 0xff, 0x04, 0xff, 0xff,
        0x04, 0xff, 0xff, 0x01, 0x01, 0xff, 0x05, 0x80, 0xff, 0xff, 0x04, 0xff,
        0xff, 0x02, 0xff, 0x06, 0xff, 0xff, 0x04, 0xff, 0x02, 0xff, 0xff, 0x04,
        0xff, 0x0b, 0xff, 0xff, 0x01, 0xff, 0x01, 0x80, 0x80, 0x80, 0x80, 0xff,
        0x80, 0x80, 0x80, 0x80, 0xff, 0x02, 0xff, 0xff, 0x03, 0xff, 0x05, 0xff,
        0xff, 0x01, 0xff, 0x04, 0xff, 0xff, 0x01, 0x04, 0xff, 0xff, 0x04, 0xff,
        0xff, 0x04, 0xff, 0xff, 0x01, 0x01, 0xff, 0x09, 0x80, 0xff, 0xff, 0x04,
        0xff, 0xff, 0x02, 0xff, 0x06, 0xff, 0xff, 0x04, 0xff, 0x02, 0xff, 0xff,
        0x04, 0xff, 0x0d, 0xff, 0xff, 0x04, 0xff, 0x0b, 0xff, 0x80, 0x80, 0x80,
        0x80, 0x80, 0xff, 0x80, 0x80, 0x80, 0x80, 0xff, 0xff, 0x01, 0x0b, 0x80,
        0xff, 0x01, 0x80, 0xff, 0x01, 0x80, 0x80,
    ]
}

/// The serialized bootstrap program that curries.
pub fn curry_program_bin() -> (r: Vec<u8>)
    ensures
        r@ == curry_program_bytes(),
{
    let v: Vec<u8> = vec![
        0xff, 0x02, 0xff, 0xff, 0x01, 0xff, 0x02, 0xff, 0x04, 0xff, 0xff, 0x04,
        0xff, 0x02, 0xff, 0xff, 0x04, 0xff, 0x05, 0xff, 0xff, 0x04, 0xff, 0x07,
        0xff, 0x80, 0x80, 0x80, 0x80, 0x80, 0xff, 0xff, 0x04, 0xff, 0xff, 0x01,
        0xff, 0xff, 0x04, 0xff, 0xff, 0x01, 0x02, 0xff, 0xff, 0x04, 0xff, 0xff,
        0x04, 0xff, 0xff, 0x01, 0x01, 0xff, 0x05, 0x80, 0xff, 0xff, 0x04, 0xff,
        0xff, 0x02, 0xff, 0x06, 0xff, 0xff, 0x04, 0xff, 0x02, 0xff, 0xff, 0x04,
        0xff, 0x0b, 0xff, 0xff, 0x01, 0xff, 0x01, 0x80, 0x80, 0x80, 0x80, 0xff,
        0x80, 0x80, 0x80, 0x80, 0xff, 0x02, 0xff, 0xff, 0x03, 0xff, 0x05, 0xff,
        0xff, 0x01, 0xff, 0x04, 0xff, 0xff, 0x01, 0x04, 0xff, 0xff, 0x04, 0xff,
        0xff, 0x04, 0xff, 0xff, 0x01, 0x01, 0xff, 0x09, 0x80, 0xff, 0xff, 0x04,
        0xff, 0xff, 0x02, 0xff, 0x06, 0xff, 0xff, 0x04, 0xff, 0x02, 0xff, 0xff,
        0x04, 0xff, 0x0d, 0xff, 0xff, 0x04, 0xff, 0x0b, 0xff, 0x80, 0x80, 0x80,
        0x80, 0x80, 0xff, 0x80, 0x80, 0x80, 0x80, 0xff, 0xff, 0x01, 0x0b, 0x80,
        0xff, 0x01, 0x80, 0xff, 0x01, 0x80, 0x80,
    ];
    assert(v@ =~= curry_program_bytes());
    v
}

/// What currying gives: the outcome of running the bootstrap program against
/// `(program . args)` under the cost ceiling.
pub open spec fn curry_outcome(program: Tree, args: Tree, max_cost: u64) -> Result<Tree, Seq<char>> {
    match decode(curry_program_bytes()) {
        None => Err(Seq::empty()),
        Some(boot) => match run_outcome(boot, Tree::Pair(Box::new(program), Box::new(args)), max_cost) {
            Ok((_, t)) => Ok(t),
            Err(msg) => Err(msg),
        },
    }
}

/// Curries a program with a list of arguments: the result, run against a
/// solution, runs `program` against the arguments followed by that solution.
/// It is what the bootstrap program gives, run against `(program . args)`
/// under the cost ceiling `max_cost`; a failure of the virtual machine is
/// `CurryFailed` with its diagnostic.
pub fn curry_with_limit(program: &Node, args: &Node, max_cost: u64) -> (r: Result<Node, ClvmError>)
    ensures
        match r {
            Ok(n) => curry_outcome(program@, args@, max_cost) == Ok::<Tree, Seq<char>>(n@),
            Err(e) => e is CurryFailed && curry_outcome(program@, args@, max_cost) == Err::<
                Tree,
                Seq<char>,
            >(e->CurryFailed_0@),
        },
{
    let bytes = curry_program_bin();
    let boot = match sexp_from_bin(bytes.as_slice()) {
        Ok(n) => n,
        Err(_) => return Err(ClvmError::CurryFailed(String::new())),
    };
    proof {
        lemma_round_trip(boot@);
    }
    let solution = Node::Pair(Box::new(program.copy()), Box::new(args.copy()));
    match run(&boot, &solution, max_cost) {
        Ok((_, n)) => Ok(n),
        Err(ClvmError::ReductionFailed(msg)) => Err(ClvmError::CurryFailed(msg)),
        Err(_) => {
            assert(false);
            Err(ClvmError::CurryFailed(String::new()))
        },
    }
}

/// Curries a program with a list of arguments, with no cost ceiling.
pub fn curry(program: &Node, args: &Node) -> (r: Result<Node, ClvmError>)
    ensures
        match r {
            Ok(n) => curry_outcome(program@, args@, UNBOUNDED_COST) == Ok::<Tree, Seq<char>>(n@),
            Err(e) => e is CurryFailed && curry_outcome(program@, args@, UNBOUNDED_COST) == Err::<
                Tree,
                Seq<char>,
            >(e->CurryFailed_0@),
        },
{
    curry_with_limit(program, args, UNBOUNDED_COST)
}

} // verus!
