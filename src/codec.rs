use vstd::prelude::*;
use crate::error::ClvmError;
use crate::tree::{size, Node, Tree};
use vstd::arithmetic::div_mod::lemma_fundamental_div_mod_converse;

verus! {

/// Atoms must be shorter than this to have a size prefix (five bytes at most).
pub const MAX_ATOM_LEN: u64 = 0x4_0000_0000;

/// Every atom of the tree is short enough to be serialized.
pub open spec fn well_formed(t: Tree) -> bool
    decreases t,
{
    match t {
        Tree::Atom(b) => b.len() < MAX_ATOM_LEN,
        Tree::Pair(f, r) => well_formed(*f) && well_formed(*r),
    }
}

/// The size prefix of an atom of `n` bytes: a first byte whose leading one bits
/// count the bytes that follow it, and the length in big-endian order.
pub open spec fn size_prefix(n: nat) -> Seq<u8> {
    if n < 0x40 {
        seq![(0x80 + n) as u8]
    } else if n < 0x2000 {
        seq![(0xC0 + n / 0x100) as u8, (n % 0x100) as u8]
    } else if n < 0x10_0000 {
        seq![(0xE0 + n / 0x1_0000) as u8, (n / 0x100 % 0x100) as u8, (n % 0x100) as u8]
    } else if n < 0x800_0000 {
        seq![
            (0xF0 + n / 0x100_0000) as u8,
            (n / 0x1_0000 % 0x100) as u8,
            (n / 0x100 % 0x100) as u8,
            (n % 0x100) as u8,
        ]
    } else {
        seq![
            (0xF8 + n / 0x1_0000_0000) as u8,
            (n / 0x100_0000 % 0x100) as u8,
            (n / 0x1_0000 % 0x100) as u8,
            (n / 0x100 % 0x100) as u8,
            (n % 0x100) as u8,
        ]
    }
}

/// An atom is written as itself when it is one byte below 0x80, else as its
/// size prefix followed by its bytes.
pub open spec fn ser_atom(b: Seq<u8>) -> Seq<u8> {
    if b.len() == 1 && b[0] < 0x80 {
        b
    } else {
        size_prefix(b.len()) + b
    }
}

/// The canonical serialization: a pair is 0xff followed by its two halves.
pub open spec fn ser(t: Tree) -> Seq<u8>
    decreases t,
{
    match t {
        Tree::Atom(b) => ser_atom(b),
        Tree::Pair(f, r) => seq![0xFFu8] + ser(*f) + ser(*r),
    }
}

/// How many bytes follow the first byte of a size prefix.
pub open spec fn extra_of_first(b0: u8) -> nat {
    if b0 < 0xC0 {
        0
    } else if b0 < 0xE0 {
        1
    } else if b0 < 0xF0 {
        2
    } else if b0 < 0xF8 {
        3
    } else {
        4
    }
}

/// The length that a size prefix at the start of `s` gives.
pub open spec fn prefix_value(s: Seq<u8>) -> nat {
    let k = extra_of_first(s[0]);
    if k == 0 {
        (s[0] - 0x80) as nat
    } else if k == 1 {
        ((s[0] - 0xC0) * 0x100 + s[1]) as nat
    } else if k == 2 {
        ((s[0] - 0xE0) * 0x1_0000 + s[1] * 0x100 + s[2]) as nat
    } else if k == 3 {
        ((s[0] - 0xF0) * 0x100_0000 + s[1] * 0x1_0000 + s[2] * 0x100 + s[3]) as nat
    } else {
        ((s[0] - 0xF8) * 0x1_0000_0000 + s[1] * 0x100_0000 + s[2] * 0x1_0000 + s[3] * 0x100
            + s[4]) as nat
    }
}

/// A size prefix starts with a byte in 0x80..0xFC, says how long it is, and
/// reads back as the length it was made from.
pub proof fn lemma_size_prefix(n: nat, rest: Seq<u8>)
    requires
        n < MAX_ATOM_LEN,
    ensures
        0x80 <= size_prefix(n)[0] < 0xFC,
        size_prefix(n).len() == extra_of_first(size_prefix(n)[0]) + 1,
        prefix_value(size_prefix(n) + rest) == n,
{
    let p = size_prefix(n);
    let s = p + rest;
    if n < 0x40 {
        assert(s[0] == p[0]);
    } else if n < 0x2000 {
        assert(s[0] == p[0] && s[1] == p[1]);
    } else if n < 0x10_0000 {
        assert(s[0] == p[0] && s[1] == p[1] && s[2] == p[2]);
    } else if n < 0x800_0000 {
        assert(s[0] == p[0] && s[1] == p[1] && s[2] == p[2] && s[3] == p[3]);
    } else {
        assert(s[0] == p[0] && s[1] == p[1] && s[2] == p[2] && s[3] == p[3] && s[4] == p[4]);
    }
}

fn push_size_prefix(n: u64, out: &mut Vec<u8>)
    requires
        n < MAX_ATOM_LEN,
    ensures
        final(out)@ == old(out)@ + size_prefix(n as nat),
{
    if n < 0x40 {
        out.push((0x80 + n) as u8);
    } else if n < 0x2000 {
        out.push((0xC0 + n / 0x100) as u8);
        out.push((n % 0x100) as u8);
    } else if n < 0x10_0000 {
        out.push((0xE0 + n / 0x1_0000) as u8);
        out.push((n / 0x100 % 0x100) as u8);
        out.push((n % 0x100) as u8);
    } else if n < 0x800_0000 {
        out.push((0xF0 + n / 0x100_0000) as u8);
        out.push((n / 0x1_0000 % 0x100) as u8);
        out.push((n / 0x100 % 0x100) as u8);
        out.push((n % 0x100) as u8);
    } else {
        out.push((0xF8 + n / 0x1_0000_0000) as u8);
        out.push((n / 0x100_0000 % 0x100) as u8);
        out.push((n / 0x1_0000 % 0x100) as u8);
        out.push((n / 0x100 % 0x100) as u8);
        out.push((n % 0x100) as u8);
    }
    assert(final(out)@ =~= old(out)@ + size_prefix(n as nat));
}

fn write_atom(b: &Vec<u8>, out: &mut Vec<u8>)
    requires
        b@.len() < MAX_ATOM_LEN,
    ensures
        final(out)@ == old(out)@ + ser_atom(b@),
{
    if b.len() == 1 && b[0] < 0x80 {
        out.push(b[0]);
        assert(final(out)@ =~= old(out)@ + b@);
    } else {
        push_size_prefix(b.len() as u64, out);
        let ghost mid = out@;
        let mut i: usize = 0;
        while i < b.len()
            invariant
                i <= b.len(),
                out@ == mid + b@.subrange(0, i as int),
            decreases b.len() - i,
        {
            out.push(b[i]);
            i = i + 1;
            assert(out@ =~= mid + b@.subrange(0, i as int));
        }
        assert(b@.subrange(0, b.len() as int) =~= b@);
        assert(final(out)@ =~= old(out)@ + ser_atom(b@));
    }
}

/// Serializations still to be written, the top of the stack (last) first.
spec fn pending(ts: Seq<Tree>) -> Seq<u8>
    decreases ts.len(),
{
    if ts.len() == 0 {
        Seq::empty()
    } else {
        ser(ts.last()) + pending(ts.drop_last())
    }
}

spec fn total_size(ts: Seq<Tree>) -> nat
    decreases ts.len(),
{
    if ts.len() == 0 {
        0
    } else {
        total_size(ts.drop_last()) + size(ts.last())
    }
}

spec fn node_views(ns: Seq<&Node>) -> Seq<Tree> {
    ns.map_values(|n: &Node| n@)
}

proof fn lemma_size_pos(t: Tree)
    ensures
        size(t) >= 1,
{
}

/// The canonical serialization of a node. It keeps the nodes still to be
/// written on an explicit stack, so deep trees do not exhaust the call stack.
pub fn sexp_as_bin(n: &Node) -> (r: Vec<u8>)
    requires
        well_formed(n@),
    ensures
        r@ == ser(n@),
{
    let mut out: Vec<u8> = Vec::new();
    let mut todo: Vec<&Node> = Vec::new();
    todo.push(n);
    proof {
        let v = node_views(todo@);
        assert(v =~= seq![n@]);
        assert(v.drop_last() =~= Seq::<Tree>::empty());
        assert(pending(Seq::<Tree>::empty()) == Seq::<u8>::empty());
        assert(pending(v) == ser(v.last()) + pending(v.drop_last()));
        assert(pending(v) =~= ser(n@));
        assert(Seq::<u8>::empty() + pending(v) =~= ser(n@));
    }
    while todo.len() > 0
        invariant
            out@ + pending(node_views(todo@)) == ser(n@),
            forall|i: int| 0 <= i < todo@.len() ==> well_formed((#[trigger] todo@[i])@),
        decreases total_size(node_views(todo@)),
    {
        let ghost before = node_views(todo@);
        let ghost todo0 = todo@;
        let ghost out0 = out@;
        let top = todo.pop().unwrap();
        proof {
            assert(node_views(todo@) =~= before.drop_last());
            assert(before.last() == top@);
            assert(well_formed(top@));
            lemma_size_pos(top@);
        }
        match top {
            Node::Atom(b) => {
                write_atom(b, &mut out);
                proof {
                    assert(out@ + pending(node_views(todo@)) =~= out0 + pending(before));
                }
            },
            Node::Pair(f, r) => {
                out.push(0xFF);
                todo.push(&**r);
                todo.push(&**f);
                proof {
                    let rest = before.drop_last();
                    let v = node_views(todo@);
                    assert(v =~= rest.push(r@).push(f@));
                    assert(v.drop_last() =~= rest.push(r@));
                    assert(rest.push(r@).drop_last() =~= rest);
                    assert(pending(v) == ser(f@) + pending(rest.push(r@)));
                    assert(pending(rest.push(r@)) == ser(r@) + pending(rest));
                    assert(total_size(v) == total_size(rest.push(r@)) + size(f@));
                    assert(total_size(rest.push(r@)) == total_size(rest) + size(r@));
                    assert(total_size(before) == total_size(rest) + size(top@));
                    assert(ser(top@) == seq![0xFFu8] + ser(f@) + ser(r@));
                    assert(out@ + pending(v) =~= out0 + pending(before));
                    assert forall|i: int| 0 <= i < todo@.len() implies well_formed(
                        (#[trigger] todo@[i])@,
                    ) by {
                        if i < todo@.len() - 2 {
                            assert(todo@[i] == todo0[i]);
                        }
                    }
                }
            },
        }
    }
    proof {
        assert(node_views(todo@) =~= Seq::<Tree>::empty());
        assert(out@ =~= ser(n@));
    }
    out
}

/// `p` is a prefix of `s`.
pub open spec fn is_prefix(p: Seq<u8>, s: Seq<u8>) -> bool {
    p.len() <= s.len() && s.subrange(0, p.len() as int) == p
}

/// The smallest length that a size prefix with `k` extra bytes may carry.
pub open spec fn min_len_for_extra(k: nat) -> nat {
    if k == 0 {
        0
    } else if k == 1 {
        0x40
    } else if k == 2 {
        0x2000
    } else if k == 3 {
        0x10_0000
    } else {
        0x800_0000
    }
}

/// A size prefix at the start of `s` that carries a length no shorter prefix
/// could carry is the size prefix of that length.
proof fn lemma_prefix_canonical(s: Seq<u8>)
    requires
        0x80 <= s[0] < 0xFC,
        s.len() > extra_of_first(s[0]),
        prefix_value(s) >= min_len_for_extra(extra_of_first(s[0])),
    ensures
        prefix_value(s) < MAX_ATOM_LEN,
        size_prefix(prefix_value(s)) == s.subrange(0, extra_of_first(s[0]) + 1 as int),
{
    let k = extra_of_first(s[0]);
    let n = prefix_value(s) as int;
    if k == 0 {
        assert(size_prefix(n as nat) =~= s.subrange(0, 1));
    } else if k == 1 {
        let a = s[0] - 0xC0;
        lemma_fundamental_div_mod_converse(n, 0x100, a, s[1] as int);
        assert(size_prefix(n as nat) =~= s.subrange(0, 2));
    } else if k == 2 {
        let a = s[0] - 0xE0;
        lemma_fundamental_div_mod_converse(n, 0x1_0000, a, s[1] * 0x100 + s[2]);
        lemma_fundamental_div_mod_converse(n, 0x100, a * 0x100 + s[1], s[2] as int);
        lemma_fundamental_div_mod_converse(a * 0x100 + s[1], 0x100, a, s[1] as int);
        assert(size_prefix(n as nat) =~= s.subrange(0, 3));
    } else if k == 3 {
        let a = s[0] - 0xF0;
        lemma_fundamental_div_mod_converse(n, 0x100_0000, a, s[1] * 0x1_0000 + s[2] * 0x100 + s[3]);
        lemma_fundamental_div_mod_converse(n, 0x1_0000, a * 0x100 + s[1], s[2] * 0x100 + s[3]);
        lemma_fundamental_div_mod_converse(a * 0x100 + s[1], 0x100, a, s[1] as int);
        lemma_fundamental_div_mod_converse(n, 0x100, a * 0x1_0000 + s[1] * 0x100 + s[2], s[3] as int);
        lemma_fundamental_div_mod_converse(a * 0x1_0000 + s[1] * 0x100 + s[2], 0x100, a * 0x100 + s[1], s[2] as int);
        assert(size_prefix(n as nat) =~= s.subrange(0, 4));
    } else {
        let a = s[0] - 0xF8;
        let r1 = s[1] * 0x100_0000 + s[2] * 0x1_0000 + s[3] * 0x100 + s[4];
        lemma_fundamental_div_mod_converse(n, 0x1_0000_0000, a, r1);
        lemma_fundamental_div_mod_converse(n, 0x100_0000, a * 0x100 + s[1], s[2] * 0x1_0000 + s[3] * 0x100 + s[4]);
        lemma_fundamental_div_mod_converse(a * 0x100 + s[1], 0x100, a, s[1] as int);
        lemma_fundamental_div_mod_converse(n, 0x1_0000, a * 0x1_0000 + s[1] * 0x100 + s[2], s[3] * 0x100 + s[4]);
        lemma_fundamental_div_mod_converse(a * 0x1_0000 + s[1] * 0x100 + s[2], 0x100, a * 0x100 + s[1], s[2] as int);
        lemma_fundamental_div_mod_converse(n, 0x100, a * 0x100_0000 + s[1] * 0x1_0000 + s[2] * 0x100 + s[3], s[4] as int);
        lemma_fundamental_div_mod_converse(a * 0x100_0000 + s[1] * 0x1_0000 + s[2] * 0x100 + s[3], 0x100, a * 0x1_0000 + s[1] * 0x100 + s[2], s[3] as int);
        assert(size_prefix(n as nat) =~= s.subrange(0, 5));
    }
}

/// The size prefix of a length never carries a shorter length than its size
/// calls for.
proof fn lemma_size_prefix_min(n: nat)
    requires
        n < MAX_ATOM_LEN,
    ensures
        n >= min_len_for_extra(extra_of_first(size_prefix(n)[0])),
{
}

/// A serialization is never empty, and starts with 0xff exactly for a pair.
proof fn lemma_ser_first(t: Tree)
    requires
        well_formed(t),
    ensures
        ser(t).len() > 0,
        (ser(t)[0] == 0xFF) == (t is Pair),
{
    match t {
        Tree::Atom(b) => {
            if !(b.len() == 1 && b[0] < 0x80) {
                lemma_size_prefix(b.len(), b);
            }
        },
        Tree::Pair(f, r) => {
        },
    }
}

/// No serialization is a proper prefix of another: two trees whose
/// serializations both start a byte string are the same tree.
pub proof fn lemma_ser_prefix_unique(t1: Tree, t2: Tree, s: Seq<u8>)
    requires
        well_formed(t1),
        well_formed(t2),
        is_prefix(ser(t1), s),
        is_prefix(ser(t2), s),
    ensures
        t1 == t2,
    decreases t1,
{
    lemma_ser_first(t1);
    lemma_ser_first(t2);
    assert(ser(t1)[0] == s[0]);
    assert(ser(t2)[0] == s[0]);
    match (t1, t2) {
        (Tree::Pair(a1, d1), Tree::Pair(a2, d2)) => {
            let s1 = s.subrange(1, s.len() as int);
            assert(ser(t1) == seq![0xFFu8] + ser(*a1) + ser(*d1));
            assert(ser(t2) == seq![0xFFu8] + ser(*a2) + ser(*d2));
            assert forall|i: int| 0 <= i < ser(*a1).len() implies s1[i] == ser(*a1)[i] by {
                assert(s1[i] == s[i + 1]);
                assert(s[i + 1] == ser(t1)[i + 1]);
            }
            assert forall|i: int| 0 <= i < ser(*a2).len() implies s1[i] == ser(*a2)[i] by {
                assert(s1[i] == s[i + 1]);
                assert(s[i + 1] == ser(t2)[i + 1]);
            }
            assert(s1.subrange(0, ser(*a1).len() as int) =~= ser(*a1));
            assert(s1.subrange(0, ser(*a2).len() as int) =~= ser(*a2));
            lemma_ser_prefix_unique(*a1, *a2, s1);
            let n = ser(*a1).len() as int;
            let s2 = s.subrange(1 + n, s.len() as int);
            assert forall|i: int| 0 <= i < ser(*d1).len() implies s2[i] == ser(*d1)[i] by {
                assert(s2[i] == s[i + 1 + n]);
                assert(s[i + 1 + n] == ser(t1)[i + 1 + n]);
            }
            assert forall|i: int| 0 <= i < ser(*d2).len() implies s2[i] == ser(*d2)[i] by {
                assert(s2[i] == s[i + 1 + n]);
                assert(s[i + 1 + n] == ser(t2)[i + 1 + n]);
            }
            assert(s2.subrange(0, ser(*d1).len() as int) =~= ser(*d1));
            assert(s2.subrange(0, ser(*d2).len() as int) =~= ser(*d2));
            lemma_ser_prefix_unique(*d1, *d2, s2);
        },
        (Tree::Atom(b1), Tree::Atom(b2)) => {
            if s[0] < 0x80 {
                if !(b1.len() == 1 && b1[0] < 0x80) {
                    lemma_size_prefix(b1.len(), b1);
                }
                if !(b2.len() == 1 && b2[0] < 0x80) {
                    lemma_size_prefix(b2.len(), b2);
                }
                assert(b1 =~= b2);
            } else {
                if b1.len() == 1 && b1[0] < 0x80 {
                    assert(false);
                }
                if b2.len() == 1 && b2[0] < 0x80 {
                    assert(false);
                }
                lemma_size_prefix(b1.len(), b1);
                lemma_size_prefix(b2.len(), b2);
                let k = extra_of_first(s[0]) + 1;
                assert(size_prefix(b1.len())[0] == s[0]);
                assert(size_prefix(b2.len())[0] == s[0]);
                let h1 = size_prefix(b1.len()) + b1;
                let h2 = size_prefix(b2.len()) + b2;
                assert(h1.subrange(0, k as int) =~= size_prefix(b1.len()));
                assert(h2.subrange(0, k as int) =~= size_prefix(b2.len()));
                assert(s.subrange(0, k as int) =~= size_prefix(b1.len()));
                assert(s.subrange(0, k as int) =~= size_prefix(b2.len()));
                assert(prefix_value(s) == prefix_value(h1)) by {
                    assert(forall|i: int| 0 <= i < k ==> s[i] == h1[i]);
                }
                assert(prefix_value(s) == prefix_value(h2)) by {
                    assert(forall|i: int| 0 <= i < k ==> s[i] == h2[i]);
                }
                assert(b1.len() == b2.len());
                assert forall|i: int| 0 <= i < b1.len() implies b1[i] == s[k + i] by {
                    assert(h1[k + i] == b1[i]);
                    assert(s[k + i] == ser(t1)[k + i]);
                }
                assert forall|i: int| 0 <= i < b2.len() implies b2[i] == s[k + i] by {
                    assert(h2[k + i] == b2[i]);
                    assert(s[k + i] == ser(t2)[k + i]);
                }
                assert(b1 =~= b2);
            }
        },
        _ => {
        },
    }
}

/// Two byte strings that agree on a size prefix read the same length from it.
proof fn lemma_prefix_value_agree(s1: Seq<u8>, s2: Seq<u8>)
    requires
        s1.len() > extra_of_first(s1[0]),
        s2.len() > extra_of_first(s1[0]),
        forall|i: int| 0 <= i <= extra_of_first(s1[0]) ==> s1[i] == s2[i],
    ensures
        prefix_value(s1) == prefix_value(s2),
{
    let k = extra_of_first(s1[0]);
    assert(s1[0] == s2[0]);
    if k >= 1 {
        assert(s1[1] == s2[1]);
    }
    if k >= 2 {
        assert(s1[2] == s2[2]);
    }
    if k >= 3 {
        assert(s1[3] == s2[3]);
    }
    if k >= 4 {
        assert(s1[4] == s2[4]);
    }
}

/// Facts on a tree whose serialization starts `s` and whose first byte is not
/// 0xff: it is an atom; if that byte is 0x80 or more, its size prefix is the
/// start of `s`.
proof fn lemma_atom_prefix(t: Tree, s: Seq<u8>)
    requires
        well_formed(t),
        is_prefix(ser(t), s),
        s[0] != 0xFF,
        s[0] >= 0x80,
    ensures
        t is Atom,
        s[0] < 0xFC,
        s.len() > extra_of_first(s[0]),
        ser(t).len() == extra_of_first(s[0]) + 1 + prefix_value(s),
        prefix_value(s) >= min_len_for_extra(extra_of_first(s[0])),
        !(prefix_value(s) == 1 && extra_of_first(s[0]) == 0 && s[1] < 0x80),
{
    lemma_ser_first(t);
    assert(ser(t)[0] == s[0]);
    let b = t->Atom_0;
    assert(!(b.len() == 1 && b[0] < 0x80));
    lemma_size_prefix(b.len(), b);
    lemma_size_prefix_min(b.len());
    let p = size_prefix(b.len());
    let k = extra_of_first(s[0]);
    assert(p[0] == s[0]);
    assert forall|i: int| 0 <= i <= k implies s[i] == (p + b)[i] by {
        assert(s[i] == ser(t)[i]);
    }
    lemma_prefix_value_agree(s, p + b);
    if b.len() == 1 && k == 0 {
        assert(s[1] == ser(t)[1]);
        assert(ser(t)[1] == b[0]);
    }
}

/// Reads an atom that starts with a size prefix.
fn parse_sized_atom(b: &[u8], pos: usize) -> (r: Option<(Node, usize)>)
    requires
        pos < b.len(),
        0x80 <= b[pos as int] < 0xFC,
    ensures
        match r {
            Some((n, e)) => pos < e <= b.len() && well_formed(n@) && b@.subrange(pos as int, e as int)
                == ser(n@),
            None => forall|t: Tree| #[trigger]
                well_formed(t) ==> !is_prefix(ser(t), b@.subrange(pos as int, b.len() as int)),
        },
{
    let ghost s = b@.subrange(pos as int, b.len() as int);
    let b0 = b[pos];
    assert(s[0] == b0);
    let k: usize = if b0 < 0xC0 {
        0
    } else if b0 < 0xE0 {
        1
    } else if b0 < 0xF0 {
        2
    } else if b0 < 0xF8 {
        3
    } else {
        4
    };
    if k >= b.len() - pos {
        proof {
            assert forall|t: Tree| #[trigger] well_formed(t) implies !is_prefix(ser(t), s) by {
                if is_prefix(ser(t), s) {
                    lemma_atom_prefix(t, s);
                }
            }
        }
        return None;
    }
    assert(s[k as int] == b[pos + k]);
    assert(k >= 1 ==> s[1] == b[pos + 1]);
    assert(k >= 2 ==> s[2] == b[pos + 2]);
    assert(k >= 3 ==> s[3] == b[pos + 3]);
    let n: u64 = if k == 0 {
        (b0 - 0x80) as u64
    } else if k == 1 {
        (b0 - 0xC0) as u64 * 0x100 + b[pos + 1] as u64
    } else if k == 2 {
        (b0 - 0xE0) as u64 * 0x1_0000 + b[pos + 1] as u64 * 0x100 + b[pos + 2] as u64
    } else if k == 3 {
        (b0 - 0xF0) as u64 * 0x100_0000 + b[pos + 1] as u64 * 0x1_0000 + b[pos + 2] as u64
            * 0x100 + b[pos + 3] as u64
    } else {
        (b0 - 0xF8) as u64 * 0x1_0000_0000 + b[pos + 1] as u64 * 0x100_0000 + b[pos + 2] as u64
            * 0x1_0000 + b[pos + 3] as u64 * 0x100 + b[pos + 4] as u64
    };
    assert(n == prefix_value(s));
    let min: u64 = if k == 0 {
        0
    } else if k == 1 {
        0x40
    } else if k == 2 {
        0x2000
    } else if k == 3 {
        0x10_0000
    } else {
        0x800_0000
    };
    let start = pos + 1 + k;
    if n < min || (n == 1 && k == 0 && start < b.len() && b[start] < 0x80) || n > (b.len()
        - start) as u64 {
        proof {
            assert(start < b.len() ==> s[1] == b[pos + 1]);
            assert forall|t: Tree| #[trigger] well_formed(t) implies !is_prefix(ser(t), s) by {
                if is_prefix(ser(t), s) {
                    lemma_atom_prefix(t, s);
                }
            }
        }
        return None;
    }
    let len = n as usize;
    let mut v: Vec<u8> = Vec::new();
    let mut i: usize = 0;
    while i < len
        invariant
            i <= len,
            start + len <= b.len(),
            v@ == b@.subrange(start as int, start + i),
        decreases len - i,
    {
        v.push(b[start + i]);
        i = i + 1;
        assert(v@ =~= b@.subrange(start as int, start + i));
    }
    proof {
        lemma_prefix_canonical(s);
        if len == 1 {
            assert(v@[0] == b[start as int]);
        }
        assert(b@.subrange(pos as int, (start + len) as int) =~= s.subrange(0, k + 1 as int) + v@);
    }
    Some((Node::Atom(v), start + len))
}

fn parse_atom_at(b: &[u8], pos: usize) -> (r: Option<(Node, usize)>)
    requires
        pos < b.len(),
        b[pos as int] != 0xFF,
    ensures
        match r {
            Some((n, e)) => pos < e <= b.len() && well_formed(n@) && b@.subrange(pos as int, e as int)
                == ser(n@),
            None => forall|t: Tree| #[trigger]
                well_formed(t) ==> !is_prefix(ser(t), b@.subrange(pos as int, b.len() as int)),
        },
{
    let ghost s = b@.subrange(pos as int, b.len() as int);
    let b0 = b[pos];
    assert(s[0] == b0);
    if b0 < 0x80 {
        let v: Vec<u8> = vec![b0];
        proof {
            assert(b@.subrange(pos as int, pos + 1) =~= v@);
        }
        Some((Node::Atom(v), pos + 1))
    } else if b0 >= 0xFC {
        proof {
            assert forall|t: Tree| #[trigger] well_formed(t) implies !is_prefix(ser(t), s) by {
                if is_prefix(ser(t), s) {
                    lemma_atom_prefix(t, s);
                }
            }
        }
        None
    } else {
        parse_sized_atom(b, pos)
    }
}

/// The tree that a byte string serializes, if any (there is at most one).
pub open spec fn decode(b: Seq<u8>) -> Option<Tree> {
    if exists|t: Tree| well_formed(t) && ser(t) == b {
        Some(choose|t: Tree| well_formed(t) && ser(t) == b)
    } else {
        None
    }
}

/// Reading back the serialization of a well-formed tree gives that tree.
pub proof fn lemma_round_trip(t: Tree)
    requires
        well_formed(t),
    ensures
        decode(ser(t)) == Some(t),
{
    let u = choose|u: Tree| well_formed(u) && ser(u) == ser(t);
    assert(ser(t).subrange(0, ser(t).len() as int) =~= ser(t));
    lemma_ser_prefix_unique(u, t, ser(t));
}

/// Serializations of trees laid end to end.
pub open spec fn sers(ts: Seq<Tree>) -> Seq<u8>
    decreases ts.len(),
{
    if ts.len() == 0 {
        Seq::empty()
    } else {
        ser(ts[0]) + sers(ts.drop_first())
    }
}

spec fn all_well_formed(ts: Seq<Tree>) -> bool {
    forall|i: int| 0 <= i < ts.len() ==> #[trigger] well_formed(ts[i])
}

/// Bytes read for a pair still being read: its 0xff, and its first half once
/// that is complete.
spec fn frame_bytes(f: Option<Node>) -> Seq<u8> {
    match f {
        Some(n) => seq![0xFFu8] + ser(n@),
        None => seq![0xFFu8],
    }
}

spec fn frames_prefix(fs: Seq<Option<Node>>) -> Seq<u8>
    decreases fs.len(),
{
    if fs.len() == 0 {
        Seq::empty()
    } else {
        frames_prefix(fs.drop_last()) + frame_bytes(fs.last())
    }
}

/// Pairs whose first half is still being read.
spec fn open_frames(fs: Seq<Option<Node>>) -> nat
    decreases fs.len(),
{
    if fs.len() == 0 {
        0
    } else {
        open_frames(fs.drop_last()) + if fs.last() is None {
            1nat
        } else {
            0nat
        }
    }
}

spec fn frames_well_formed(fs: Seq<Option<Node>>) -> bool {
    forall|i: int| 0 <= i < fs.len() && (#[trigger] fs[i]) is Some ==> well_formed(fs[i]->0@)
}

proof fn lemma_sers_pair(a: Tree, d: Tree, rest: Seq<Tree>)
    ensures
        sers(seq![a, d] + rest) == ser(a) + ser(d) + sers(rest),
{
    let s = seq![a, d] + rest;
    let s1 = seq![d] + rest;
    assert(s.drop_first() =~= s1);
    assert(s1.drop_first() =~= rest);
    assert(s[0] == a);
    assert(s1[0] == d);
    assert(sers(s) == ser(a) + sers(s1));
    assert(sers(s1) == ser(d) + sers(rest));
    assert(ser(a) + (ser(d) + sers(rest)) =~= ser(a) + ser(d) + sers(rest));
}

/// Reads the canonical serialization of one S-expression, with nothing after
/// it. It keeps the pairs still being read on an explicit stack, so deeply
/// nested input does not exhaust the call stack.
pub fn sexp_from_bin(b: &[u8]) -> (r: Result<Node, ClvmError>)
    ensures
        match r {
            Ok(n) => well_formed(n@) && ser(n@) == b@,
            Err(e) => e is MalformedEncoding && forall|t: Tree| #[trigger]
                well_formed(t) ==> ser(t) != b@,
        },
{
    let ghost has = exists|t: Tree| well_formed(t) && ser(t) == b@;
    let ghost mut ts: Seq<Tree> = if has {
        seq![choose|t: Tree| well_formed(t) && ser(t) == b@]
    } else {
        Seq::empty()
    };
    proof {
        if has {
            let t = ts[0];
            assert(ts.drop_first() =~= Seq::<Tree>::empty());
            assert(sers(Seq::<Tree>::empty()) == Seq::<u8>::empty());
            assert(sers(ts) == ser(t) + sers(ts.drop_first()));
            assert(sers(ts) =~= ser(t));
            assert(all_well_formed(ts));
            assert(b@.subrange(0, b@.len() as int) =~= b@);
        }
        assert(b@.subrange(0, 0) =~= Seq::<u8>::empty());
    }
    let mut frames: Vec<Option<Node>> = Vec::new();
    let mut pos: usize = 0;
    loop
        invariant
            pos <= b.len(),
            b@.subrange(0, pos as int) == frames_prefix(frames@),
            frames_well_formed(frames@),
            has == exists|t: Tree| well_formed(t) && ser(t) == b@,
            has ==> all_well_formed(ts) && ts.len() == 1 + open_frames(frames@) && b@.subrange(
                pos as int,
                b.len() as int,
            ) == sers(ts),
        decreases b.len() - pos,
    {
        if pos >= b.len() {
            proof {
                if has {
                    lemma_ser_first(ts[0]);
                    assert(sers(ts).len() > 0);
                }
            }
            return Err(ClvmError::MalformedEncoding);
        }
        let ghost rest_bytes = b@.subrange(pos as int, b.len() as int);
        if b[pos] == 0xFF {
            proof {
                if has {
                    let t0 = ts[0];
                    assert(well_formed(t0));
                    lemma_ser_first(t0);
                    assert(rest_bytes[0] == ser(t0)[0]);
                    let a = *t0->Pair_0;
                    let d = *t0->Pair_1;
                    assert(ser(t0) == seq![0xFFu8] + ser(a) + ser(d));
                    let drop = ts.drop_first();
                    let nts = seq![a, d] + drop;
                    lemma_sers_pair(a, d, drop);
                    assert(sers(ts) == ser(t0) + sers(drop));
                    assert(rest_bytes =~= seq![0xFFu8] + (ser(a) + ser(d) + sers(drop)));
                    assert(b@.subrange(pos + 1, b.len() as int) =~= rest_bytes.subrange(1, rest_bytes.len() as int));
                    assert(b@.subrange(pos + 1, b.len() as int) =~= ser(a) + ser(d) + sers(drop));
                    assert(well_formed(a) && well_formed(d));
                    assert forall|i: int| 0 <= i < nts.len() implies #[trigger] well_formed(nts[i]) by {
                        if i >= 2 {
                            assert(nts[i] == ts[i - 1]);
                        }
                    }
                    ts = nts;
                }
            }
            let ghost old_frames = frames@;
            frames.push(None);
            proof {
                assert(frames@.drop_last() =~= old_frames);
                assert(b@.subrange(0, pos + 1) =~= b@.subrange(0, pos as int) + seq![0xFFu8]);
            }
            pos = pos + 1;
        } else {
            let (n0, e) = match parse_atom_at(b, pos) {
                Some(x) => x,
                None => {
                    proof {
                        if has {
                            assert(well_formed(ts[0]));
                            assert(sers(ts) == ser(ts[0]) + sers(ts.drop_first()));
                            assert(rest_bytes.subrange(0, ser(ts[0]).len() as int) =~= ser(ts[0]));
                        }
                        assert forall|t: Tree| #[trigger] well_formed(t) implies ser(t) != b@ by {
                            if ser(t) == b@ {
                                assert(has);
                            }
                        }
                    }
                    return Err(ClvmError::MalformedEncoding);
                },
            };
            proof {
                if has {
                    assert(well_formed(ts[0]));
                    assert(sers(ts) == ser(ts[0]) + sers(ts.drop_first()));
                    assert(rest_bytes.subrange(0, ser(ts[0]).len() as int) =~= ser(ts[0]));
                    assert(rest_bytes.subrange(0, ser(n0@).len() as int) =~= ser(n0@));
                    lemma_ser_prefix_unique(ts[0], n0@, rest_bytes);
                    assert(b@.subrange(e as int, b.len() as int) =~= rest_bytes.subrange(
                        ser(n0@).len() as int,
                        rest_bytes.len() as int,
                    ));
                    ts = ts.drop_first();
                }
                assert(b@.subrange(0, e as int) =~= b@.subrange(0, pos as int) + b@.subrange(pos as int, e as int));
            }
            pos = e;
            let mut n = n0;
            loop
                invariant_except_break
                    pos <= b.len(),
                    b@.subrange(0, pos as int) == frames_prefix(frames@) + ser(n@),
                    well_formed(n@),
                    frames_well_formed(frames@),
                    has == exists|t: Tree| well_formed(t) && ser(t) == b@,
                    has ==> all_well_formed(ts) && ts.len() == open_frames(frames@) && b@.subrange(
                        pos as int,
                        b.len() as int,
                    ) == sers(ts),
                ensures
                    pos <= b.len(),
                    b@.subrange(0, pos as int) == frames_prefix(frames@),
                    frames_well_formed(frames@),
                    has ==> all_well_formed(ts) && ts.len() == 1 + open_frames(frames@) && b@.subrange(
                        pos as int,
                        b.len() as int,
                    ) == sers(ts),
                decreases frames.len(),
            {
                let ghost fs = frames@;
                match frames.pop() {
                    None => {
                        assert(fs.len() == 0);
                        if pos == b.len() {
                            proof {
                                assert(b@.subrange(0, pos as int) =~= b@);
                                assert(frames_prefix(fs) =~= Seq::<u8>::empty());
                                assert(ser(n@) =~= b@);
                            }
                            return Ok(n);
                        }
                        proof {
                            assert forall|t: Tree| #[trigger] well_formed(t) implies ser(t) != b@ by {
                                if ser(t) == b@ {
                                    assert(has);
                                    assert(ts.len() == 0);
                                    assert(sers(ts) =~= Seq::<u8>::empty());
                                }
                            }
                        }
                        return Err(ClvmError::MalformedEncoding);
                    },
                    Some(None) => {
                        let ghost n_view = n@;
                        frames.push(Some(n));
                        proof {
                            assert(fs.drop_last() =~= frames@.drop_last());
                            assert(frames@.last() is Some && frames@.last()->0@ == n_view);
                            assert(frames_well_formed(frames@));
                        }
                        break;
                    },
                    Some(Some(f)) => {
                        proof {
                            assert(fs[fs.len() - 1] is Some);
                            assert(fs.drop_last() =~= frames@);
                            assert(frames_well_formed(frames@));
                        }
                        n = Node::Pair(Box::new(f), Box::new(n));
                    },
                }
            }
        }
    }
}

} // verus!
