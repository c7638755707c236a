use vstd::prelude::*;

verus! {

/// The contents after `push_back` of each value of `vs`, in order, onto a
/// list holding `s`.
pub open spec fn after_pushes_back<T>(s: Seq<T>, vs: Seq<T>) -> Seq<T>
    decreases vs.len(),
{
    if vs.len() == 0 {
        s
    } else {
        after_pushes_back(s.push(vs[0]), vs.drop_first())
    }
}

/// The contents after `push_front` of each value of `vs`, in order, onto a
/// list holding `s`.
pub open spec fn after_pushes_front<T>(s: Seq<T>, vs: Seq<T>) -> Seq<T>
    decreases vs.len(),
{
    if vs.len() == 0 {
        s
    } else {
        after_pushes_front(seq![vs[0]] + s, vs.drop_first())
    }
}

/// The values that `n` calls of `pop_back` return, in order, on a list
/// holding `s` (while it has elements left).
pub open spec fn pops_back<T>(s: Seq<T>, n: nat) -> Seq<T>
    decreases n,
{
    if n == 0 || s.len() == 0 {
        Seq::empty()
    } else {
        seq![s.last()] + pops_back(s.drop_last(), (n - 1) as nat)
    }
}

/// The values that `n` calls of `pop_front` return, in order, on a list
/// holding `s` (while it has elements left).
pub open spec fn pops_front<T>(s: Seq<T>, n: nat) -> Seq<T>
    decreases n,
{
    if n == 0 || s.len() == 0 {
        Seq::empty()
    } else {
        seq![s[0]] + pops_front(s.drop_first(), (n - 1) as nat)
    }
}

/// Pushing values at the back appends them.
pub proof fn lemma_pushes_back<T>(s: Seq<T>, vs: Seq<T>)
    ensures
        after_pushes_back(s, vs) == s + vs,
    decreases vs.len(),
{
    if vs.len() > 0 {
        lemma_pushes_back(s.push(vs[0]), vs.drop_first());
        assert(s.push(vs[0]) + vs.drop_first() =~= s + vs);
    }
}

/// Pushing values at the front prepends them in reverse order.
pub proof fn lemma_pushes_front<T>(s: Seq<T>, vs: Seq<T>)
    ensures
        after_pushes_front(s, vs) == vs.reverse() + s,
    decreases vs.len(),
{
    if vs.len() > 0 {
        lemma_pushes_front(seq![vs[0]] + s, vs.drop_first());
        assert(vs.drop_first().reverse() + (seq![vs[0]] + s) =~= vs.reverse() + s);
    }
}

/// `n` back pops on `s + vs`, with `n` the length of `vs`, return `vs` last
/// value first.
proof fn lemma_pops_back_suffix<T>(s: Seq<T>, vs: Seq<T>)
    ensures
        pops_back(s + vs, vs.len()) == vs.reverse(),
    decreases vs.len(),
{
    if vs.len() > 0 {
        let w = vs.drop_last();
        assert((s + vs).drop_last() =~= s + w);
        assert((s + vs).last() == vs.last());
        lemma_pops_back_suffix(s, w);
        assert(seq![vs.last()] + w.reverse() =~= vs.reverse());
    }
}

/// `n` front pops on `vs + s`, with `n` the length of `vs`, return `vs` in order.
proof fn lemma_pops_front_prefix<T>(s: Seq<T>, vs: Seq<T>)
    ensures
        pops_front(vs + s, vs.len()) == vs,
    decreases vs.len(),
{
    if vs.len() > 0 {
        let w = vs.drop_first();
        assert((vs + s).drop_first() =~= w + s);
        lemma_pops_front_prefix(s, w);
        assert(seq![vs[0]] + w =~= vs);
    }
}

/// Back end as a stack: after pushing the values of `vs` at the back of a
/// list holding `s`, as many back pops return them most recent first, and
/// leave `s` behind.
pub proof fn lemma_back_lifo<T>(s: Seq<T>, vs: Seq<T>)
    ensures
        pops_back(after_pushes_back(s, vs), vs.len()) == vs.reverse(),
        after_pushes_back(s, vs).take(s.len() as int) == s,
{
    lemma_pushes_back(s, vs);
    lemma_pops_back_suffix(s, vs);
    assert((s + vs).take(s.len() as int) =~= s);
}

/// Front end as a stack: after pushing the values of `vs` at the front of a
/// list holding `s`, as many front pops return them most recent first, and
/// leave `s` behind.
pub proof fn lemma_front_lifo<T>(s: Seq<T>, vs: Seq<T>)
    ensures
        pops_front(after_pushes_front(s, vs), vs.len()) == vs.reverse(),
        after_pushes_front(s, vs).skip(vs.len() as int) == s,
{
    lemma_pushes_front(s, vs);
    lemma_pops_front_prefix(s, vs.reverse());
    assert((vs.reverse() + s).skip(vs.len() as int) =~= s);
}

} // verus!
